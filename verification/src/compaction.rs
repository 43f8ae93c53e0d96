//! Arrays of alike objects as comma-separated rows below a line that declares the columns.
use crate::json::{
    ascending, field, field_models, group_json_models, integer_text, is_float_text, json_parse,
    model, models, parse_json, well_formed, Json, JsonModel, Number,
};
use crate::order::{
    arranged, distinct_below, ints, order_by, signed_keys, stable_order, stable_order_sorts,
};
use crate::text::{
    copy_str, dec, decimal_usize, first_is, has_char, holds, is_digit, is_empty_text,
    is_numeric_like, join, join_texts, lemma_dec, lemma_join_first, lemma_numeric_chars,
    lemma_signed_dec_numeric, lemma_text_less_irreflexive, lemma_text_less_total,
    lemma_text_less_transitive, lemma_views_push, numeric_char, numeric_like, same_text, signed_dec,
    text_before, text_has_char, text_less, to_chars, views,
};
use vstd::prelude::*;

verus! {

broadcast use {group_json_models, lemma_views_push};

/// A scalar that is not a string with an array or an object in it.
pub open spec fn is_simple(m: JsonModel) -> bool {
    match m {
        JsonModel::Array(_) => false,
        JsonModel::Object(_) => false,
        JsonModel::Text(s) => json_parse(s) matches Some(inner) ==> inner.is_scalar(),
        _ => true,
    }
}

/// An object whose fields are all simple.
pub open spec fn is_flat(m: JsonModel) -> bool {
    m matches JsonModel::Object(fs) && forall|i: int|
        0 <= i < fs.len() ==> is_simple((#[trigger] fs[i]).1)
}

pub open spec fn all_flat(items: Seq<JsonModel>) -> bool {
    forall|i: int| 0 <= i < items.len() ==> is_flat(#[trigger] items[i])
}

/// The names in ascending order with `name` among them.
pub open spec fn with_name(names: Seq<Seq<char>>, name: Seq<char>) -> Seq<Seq<char>>
    decreases names.len(),
{
    if names.len() == 0 {
        seq![name]
    } else if names[0] == name {
        names
    } else if text_less(name, names[0]) {
        seq![name] + names
    } else {
        seq![names[0]] + with_name(names.drop_first(), name)
    }
}

pub open spec fn with_names_of(
    names: Seq<Seq<char>>,
    fs: Seq<(Seq<char>, JsonModel)>,
) -> Seq<Seq<char>>
    decreases fs.len(),
{
    if fs.len() == 0 {
        names
    } else {
        with_name(with_names_of(names, fs.drop_last()), fs.last().0)
    }
}

/// All field names of the objects, in ascending order.
pub open spec fn all_names(items: Seq<JsonModel>) -> Seq<Seq<char>>
    decreases items.len(),
{
    if items.len() == 0 {
        seq![]
    } else {
        with_names_of(all_names(items.drop_last()), items.last()->Object_0)
    }
}

/// How many of the objects have the field.
pub open spec fn frequency(items: Seq<JsonModel>, name: Seq<char>) -> nat
    decreases items.len(),
{
    if items.len() == 0 {
        0
    } else {
        frequency(items.drop_last(), name) + if items.last().get(name) is Some {
            1nat
        } else {
            0nat
        }
    }
}

pub open spec fn negated_frequencies(items: Seq<JsonModel>, names: Seq<Seq<char>>) -> Seq<int> {
    Seq::new(names.len(), |i: int| -(frequency(items, names[i]) as int))
}

/// The columns: the most frequent first, by name among those that are equally frequent.
pub open spec fn columns(items: Seq<JsonModel>) -> Seq<Seq<char>> {
    let names = all_names(items);
    arranged(names, stable_order(negated_frequencies(items, names)))
}

#[derive(Debug, Clone, Copy, PartialEq, Eq, Structural)]
pub enum TypeTag {
    Bool,
    Int,
    Float,
    Text,
    Json,
}

pub open spec fn tag_name(tag: TypeTag) -> Seq<char> {
    match tag {
        TypeTag::Bool => "bool"@,
        TypeTag::Int => "int"@,
        TypeTag::Float => "float"@,
        TypeTag::Text => "string"@,
        TypeTag::Json => "json"@,
    }
}

pub open spec fn tag_of(m: JsonModel) -> TypeTag {
    match m {
        JsonModel::Bool(_) => TypeTag::Bool,
        JsonModel::Int(_) => TypeTag::Int,
        JsonModel::Float(_) => TypeTag::Float,
        JsonModel::Text(_) => TypeTag::Text,
        _ => TypeTag::Json,
    }
}

/// The type that all values of a column have, but for nulls; `Json` where they have none in common.
pub open spec fn common_tag(items: Seq<JsonModel>, name: Seq<char>) -> Option<TypeTag>
    decreases items.len(),
{
    if items.len() == 0 {
        None
    } else {
        let before = common_tag(items.drop_last(), name);
        match items.last().get(name) {
            None => before,
            Some(v) => if v is Null {
                before
            } else {
                match before {
                    None => Some(tag_of(v)),
                    Some(t) => if t == tag_of(v) {
                        before
                    } else {
                        Some(TypeTag::Json)
                    },
                }
            },
        }
    }
}

pub open spec fn column_tag(items: Seq<JsonModel>, name: Seq<char>) -> TypeTag {
    match common_tag(items, name) {
        Some(t) => t,
        None => TypeTag::Text,
    }
}

pub open spec fn has_null(items: Seq<JsonModel>, name: Seq<char>) -> bool {
    exists|i: int| 0 <= i < items.len() && (#[trigger] items[i]).get(name) == Some(JsonModel::Null)
}

/// Some object lacks the field or has null there.
pub open spec fn is_nullable(items: Seq<JsonModel>, name: Seq<char>) -> bool {
    frequency(items, name) < items.len() || has_null(items, name)
}

/// How the name of a column is written: between quotes where it could not be told from what follows it.
pub open spec fn column_name(name: Seq<char>) -> Seq<char> {
    if name.len() == 0 || needs_csv_quotes(name) || has_char(name, ':') || has_char(name, '}') {
        csv_quoted(name)
    } else {
        name
    }
}

pub open spec fn column_text(items: Seq<JsonModel>, name: Seq<char>) -> Seq<char> {
    column_name(name) + ":"@ + tag_name(column_tag(items, name)) + if is_nullable(items, name) {
        "?"@
    } else {
        ""@
    }
}

pub open spec fn column_texts(items: Seq<JsonModel>) -> Seq<Seq<char>> {
    Seq::new(columns(items).len(), |i: int| column_text(items, columns(items)[i]))
}

pub open spec fn needs_csv_quotes(s: Seq<char>) -> bool {
    has_char(s, ',') || has_char(s, '"') || has_char(s, '\n') || has_char(s, '\r')
}

/// The text with each quote doubled.
pub open spec fn doubled(s: Seq<char>) -> Seq<char>
    decreases s.len(),
{
    if s.len() == 0 {
        seq![]
    } else if s[0] == '"' {
        seq!['"', '"'] + doubled(s.drop_first())
    } else {
        seq![s[0]] + doubled(s.drop_first())
    }
}

pub open spec fn csv_quoted(s: Seq<char>) -> Seq<char> {
    seq!['"'] + doubled(s) + seq!['"']
}

/// A string that would read as something else without quotes: as nothing, as a word or as a number.
pub open spec fn looks_otherwise(s: Seq<char>) -> bool {
    s.len() == 0 || s == "null"@ || s == "true"@ || s == "false"@ || numeric_like(s)
}

pub open spec fn csv_string(s: Seq<char>) -> Seq<char> {
    if needs_csv_quotes(s) || looks_otherwise(s) {
        csv_quoted(s)
    } else {
        s
    }
}

/// A scalar as a cell.
pub open spec fn csv_cell(m: JsonModel) -> Seq<char> {
    match m {
        JsonModel::Null => "null"@,
        JsonModel::Bool(b) => if b {
            "true"@
        } else {
            "false"@
        },
        JsonModel::Int(n) => signed_dec(n),
        JsonModel::Float(t) => t,
        JsonModel::Text(s) => csv_string(s),
        _ => ""@,
    }
}

/// The cell of a field; nothing where it is not there.
pub open spec fn optional_cell(v: Option<JsonModel>) -> Seq<char> {
    match v {
        Some(m) => csv_cell(m),
        None => ""@,
    }
}

pub open spec fn csv_cells(item: JsonModel, names: Seq<Seq<char>>) -> Seq<Seq<char>> {
    Seq::new(names.len(), |i: int| optional_cell(item.get(names[i])))
}

pub open spec fn csv_row(item: JsonModel, names: Seq<Seq<char>>) -> Seq<char> {
    join(csv_cells(item, names), ","@) + "\n"@
}

pub open spec fn csv_rows(items: Seq<JsonModel>, names: Seq<Seq<char>>) -> Seq<char>
    decreases items.len(),
{
    if items.len() == 0 {
        seq![]
    } else {
        csv_rows(items.drop_last(), names) + csv_row(items.last(), names)
    }
}

/// The line that declares the columns, then a row for each object.
pub open spec fn csv_text(items: Seq<JsonModel>) -> Seq<char> {
    "["@ + dec(items.len()) + "]{"@ + join(column_texts(items), ","@) + "}\n"@ + csv_rows(
        items,
        columns(items),
    )
}

// ---------------------------------------------------------------------------
// Computing it
// ---------------------------------------------------------------------------

fn check_simple(v: &Json) -> (b: bool)
    ensures
        b == is_simple(v@),
{
    match v {
        Json::Array(_) | Json::Object(_) => false,
        Json::Text(s) => match parse_json(s.as_str()) {
            Some(inner) => inner.is_scalar(),
            None => true,
        },
        _ => true,
    }
}

fn check_flat(item: &Json) -> (b: bool)
    ensures
        b == is_flat(item@),
{
    match item {
        Json::Object(fields) => {
            let ghost fs = field_models(fields@);
            let mut i: usize = 0;
            while i < fields.len()
                invariant
                    i <= fields@.len(),
                    fs == field_models(fields@),
                    item@ == JsonModel::Object(fs),
                    forall|j: int| 0 <= j < i ==> is_simple((#[trigger] fs[j]).1),
                decreases fields.len() - i,
            {
                assert(fs[i as int].1 == model(fields@[i as int].1));
                if !check_simple(&fields[i].1) {
                    assert(!is_simple(item@->Object_0[i as int].1));
                    return false;
                }
                i = i + 1;
            }
            true
        },
        _ => false,
    }
}

fn insert_name(names: &mut Vec<String>, name: &str)
    ensures
        views(final(names)@) == with_name(views(old(names)@), name@),
{
    let ghost all = views(names@);
    let mut i: usize = 0;
    assert(all.skip(0) =~= all);
    assert(all.take(0) + with_name(all, name@) =~= with_name(all, name@));
    while i < names.len()
        invariant
            i <= names@.len(),
            views(names@) == all,
            all == views(old(names)@),
            all.take(i as int) + with_name(all.skip(i as int), name@) == with_name(all, name@),
        decreases names.len() - i,
    {
        let ghost rest = all.skip(i as int);
        assert(rest[0] == names@[i as int]@);
        assert(rest.drop_first() =~= all.skip(i + 1));
        if same_text(names[i].as_str(), name) {
            assert(all.take(i as int) + rest =~= all);
            return ;
        }
        if text_before(name, names[i].as_str()) {
            let copy = copy_str(name);
            names.insert(i, copy);
            assert(views(names@) =~= all.take(i as int) + (seq![name@] + rest));
            return ;
        }
        assert(all.take(i + 1) + with_name(all.skip(i + 1), name@) =~= all.take(i as int) + (seq![rest[0]]
            + with_name(rest.drop_first(), name@)));
        i = i + 1;
    }
    assert(all.skip(i as int).len() == 0);
    names.push(copy_str(name));
    assert(views(names@) =~= all.take(i as int) + seq![name@]);
}

fn collect_names(items: &[Json]) -> (names: Vec<String>)
    requires
        all_flat(models(items@)),
    ensures
        views(names@) == all_names(models(items@)),
{
    let ghost ms = models(items@);
    let mut names: Vec<String> = Vec::new();
    let mut i: usize = 0;
    assert(ms.take(0) =~= seq![]);
    assert(views(names@) =~= all_names(ms.take(0)));
    while i < items.len()
        invariant
            i <= items@.len(),
            ms == models(items@),
            all_flat(ms),
            views(names@) == all_names(ms.take(i as int)),
        decreases items.len() - i,
    {
        let ghost before = views(names@);
        assert(ms.take(i + 1).drop_last() =~= ms.take(i as int));
        assert(ms.take(i + 1).last() == ms[i as int]);
        assert(ms[i as int] == model(items@[i as int]));
        assert(is_flat(ms[i as int]));
        match &items[i] {
            Json::Object(fields) => {
                let ghost fs = field_models(fields@);
                assert(ms[i as int]->Object_0 == fs);
                let mut j: usize = 0;
                assert(fs.take(0) =~= seq![]);
                while j < fields.len()
                    invariant
                        j <= fields@.len(),
                        fs == field_models(fields@),
                        views(names@) == with_names_of(before, fs.take(j as int)),
                    decreases fields.len() - j,
                {
                    assert(fs.take(j + 1).drop_last() =~= fs.take(j as int));
                    assert(fs.take(j + 1).last().0 == fields@[j as int].0@);
                    insert_name(&mut names, fields[j].0.as_str());
                    j = j + 1;
                }
                assert(fs.take(fs.len() as int) =~= fs);
            },
            _ => {},
        }
        i = i + 1;
    }
    assert(ms.take(ms.len() as int) =~= ms);
    names
}

fn count_frequency(items: &[Json], name: &str) -> (n: usize)
    ensures
        n == frequency(models(items@), name@),
        n <= items@.len(),
{
    let ghost ms = models(items@);
    let mut n: usize = 0;
    let mut i: usize = 0;
    assert(ms.take(0) =~= seq![]);
    while i < items.len()
        invariant
            n <= i <= items@.len(),
            ms == models(items@),
            n == frequency(ms.take(i as int), name@),
        decreases items.len() - i,
    {
        assert(ms.take(i + 1).drop_last() =~= ms.take(i as int));
        assert(ms.take(i + 1).last() == model(items@[i as int]));
        if items[i].get(name).is_some() {
            n = n + 1;
        }
        i = i + 1;
    }
    assert(ms.take(ms.len() as int) =~= ms);
    n
}

fn order_columns(items: &[Json]) -> (out: Vec<String>)
    requires
        all_flat(models(items@)),
    ensures
        views(out@) == columns(models(items@)),
{
    let ghost ms = models(items@);
    let names = collect_names(items);
    let ghost ns = views(names@);
    let mut keys: Vec<u128> = Vec::new();
    let mut i: usize = 0;
    while i < names.len()
        invariant
            i <= names@.len(),
            ms == models(items@),
            ns == views(names@),
            keys@.len() == i,
            forall|j: int| 0 <= j < i ==> #[trigger] keys@[j] == frequency(ms, ns[j]),
        decreases names.len() - i,
    {
        keys.push(count_frequency(items, names[i].as_str()) as u128);
        i = i + 1;
    }
    assert(signed_keys(keys@, true) =~= negated_frequencies(ms, ns));
    let order = order_by(&keys, true);
    let mut out: Vec<String> = Vec::new();
    let mut k: usize = 0;
    while k < order.len()
        invariant
            k <= order@.len(),
            ns == views(names@),
            distinct_below(ints(order@), names@.len() as int),
            out@.len() == k,
            forall|j: int| 0 <= j < k ==> (#[trigger] out@[j])@ == ns[ints(order@)[j]],
        decreases order.len() - k,
    {
        assert(ints(order@)[k as int] == order@[k as int]);
        out.push(names[order[k]].clone());
        k = k + 1;
    }
    assert(views(out@) =~= columns(ms));
    out
}

fn type_tag_for(v: &Json) -> (t: TypeTag)
    ensures
        t == tag_of(v@),
{
    match v {
        Json::Bool(_) => TypeTag::Bool,
        Json::Number(Number::PosInt(_)) => TypeTag::Int,
        Json::Number(Number::NegInt(_)) => TypeTag::Int,
        Json::Number(Number::Float(_)) => TypeTag::Float,
        Json::Text(_) => TypeTag::Text,
        _ => TypeTag::Json,
    }
}

fn infer_type_tag(items: &[Json], name: &str) -> (t: TypeTag)
    ensures
        t == column_tag(models(items@), name@),
{
    let ghost ms = models(items@);
    let mut tag: Option<TypeTag> = None;
    let mut i: usize = 0;
    assert(ms.take(0) =~= seq![]);
    while i < items.len()
        invariant
            i <= items@.len(),
            ms == models(items@),
            tag == common_tag(ms.take(i as int), name@),
        decreases items.len() - i,
    {
        assert(ms.take(i + 1).drop_last() =~= ms.take(i as int));
        assert(ms.take(i + 1).last() == model(items@[i as int]));
        match items[i].get(name) {
            None => {},
            Some(Json::Null) => {},
            Some(v) => {
                let t = type_tag_for(v);
                match tag {
                    None => {
                        tag = Some(t);
                    },
                    Some(existing) => {
                        if existing != t {
                            tag = Some(TypeTag::Json);
                        }
                    },
                }
            },
        }
        i = i + 1;
    }
    assert(ms.take(ms.len() as int) =~= ms);
    match tag {
        Some(t) => t,
        None => TypeTag::Text,
    }
}

fn check_null(items: &[Json], name: &str) -> (b: bool)
    ensures
        b == has_null(models(items@), name@),
{
    let ghost ms = models(items@);
    let mut i: usize = 0;
    while i < items.len()
        invariant
            i <= items@.len(),
            ms == models(items@),
            forall|j: int| 0 <= j < i ==> (#[trigger] ms[j]).get(name@) != Some(JsonModel::Null),
        decreases items.len() - i,
    {
        assert(ms[i as int] == model(items@[i as int]));
        match items[i].get(name) {
            Some(Json::Null) => {
                assert(ms[i as int].get(name@) == Some(JsonModel::Null));
                return true;
            },
            _ => {},
        }
        i = i + 1;
    }
    false
}

fn show_name(name: &str) -> (s: String)
    ensures
        s@ == column_name(name@),
{
    if is_empty_text(name) || check_quotes(name) || text_has_char(name, ':') || text_has_char(name, '}') {
        csv_quote(name)
    } else {
        copy_str(name)
    }
}

fn declare_column(items: &[Json], name: &str) -> (s: String)
    ensures
        s@ == column_text(models(items@), name@),
{
    let mut s = show_name(name);
    s.append(":");
    match infer_type_tag(items, name) {
        TypeTag::Bool => {
            s.append("bool");
        },
        TypeTag::Int => {
            s.append("int");
        },
        TypeTag::Float => {
            s.append("float");
        },
        TypeTag::Text => {
            s.append("string");
        },
        TypeTag::Json => {
            s.append("json");
        },
    }
    if count_frequency(items, name) < items.len() || check_null(items, name) {
        s.append("?");
    } else {
        s.append("");
    }
    s
}

fn check_quotes(s: &str) -> (b: bool)
    ensures
        b == needs_csv_quotes(s@),
{
    text_has_char(s, ',') || text_has_char(s, '"') || text_has_char(s, '\n') || text_has_char(s, '\r')
}

fn check_otherwise(s: &str) -> (b: bool)
    ensures
        b == looks_otherwise(s@),
{
    is_empty_text(s) || same_text(s, "null") || same_text(s, "true") || same_text(s, "false")
        || is_numeric_like(s)
}

fn csv_quote(s: &str) -> (out: String)
    ensures
        out@ == csv_quoted(s@),
{
    let v = to_chars(s);
    let mut out = String::new();
    out.push('"');
    let mut i: usize = 0;
    assert(s@.skip(0) =~= s@);
    assert(out@ =~= seq!['"']);
    while i < v.len()
        invariant
            i <= v@.len(),
            v@ == s@,
            out@ + doubled(s@.skip(i as int)) == seq!['"'] + doubled(s@),
        decreases v.len() - i,
    {
        let ghost rest = s@.skip(i as int);
        let ghost before = out@;
        assert(rest.drop_first() =~= s@.skip(i + 1));
        if v[i] == '"' {
            out.push('"');
        }
        out.push(v[i]);
        assert(out@ + doubled(s@.skip(i + 1)) =~= before + doubled(rest));
        i = i + 1;
    }
    assert(doubled(s@.skip(i as int)) =~= seq![]);
    assert(out@ =~= seq!['"'] + doubled(s@));
    out.push('"');
    assert(out@ =~= seq!['"'] + doubled(s@) + seq!['"']);
    out
}

fn json_scalar_to_csv(v: &Json) -> (s: String)
    ensures
        s@ == csv_cell(v@),
{
    match v {
        Json::Null => copy_str("null"),
        Json::Bool(b) => if *b {
            copy_str("true")
        } else {
            copy_str("false")
        },
        Json::Number(Number::Float(t)) => t.clone(),
        Json::Number(n) => integer_text(n),
        Json::Text(s) => {
            if check_quotes(s.as_str()) || check_otherwise(s.as_str()) {
                csv_quote(s.as_str())
            } else {
                s.clone()
            }
        },
        _ => copy_str(""),
    }
}

fn row_text(item: &Json, names: &Vec<String>) -> (s: String)
    ensures
        s@ == csv_row(item@, views(names@)),
{
    let mut cells: Vec<String> = Vec::new();
    let mut i: usize = 0;
    while i < names.len()
        invariant
            i <= names@.len(),
            cells@.len() == i,
            forall|j: int|
                0 <= j < i ==> (#[trigger] cells@[j])@ == csv_cells(item@, views(names@))[j],
        decreases names.len() - i,
    {
        let cell = match item.get(names[i].as_str()) {
            Some(v) => json_scalar_to_csv(v),
            None => copy_str(""),
        };
        cells.push(cell);
        i = i + 1;
    }
    assert(views(cells@) =~= csv_cells(item@, views(names@)));
    let mut s = join_texts(&cells, ",");
    s.append("\n");
    s
}

/// The rows of two or more flat objects, or nothing for other items.
///
/// Nothing is lost: see [`tables_are_kept`].
pub fn render_csv_schema(items: &[Json]) -> (r: Option<String>)
    ensures
        r is Some <==> items@.len() >= 2 && all_flat(models(items@)),
        r matches Some(s) ==> s@ == csv_text(models(items@)),
{
    let ghost ms = models(items@);
    if items.len() < 2 {
        return None;
    }
    let mut i: usize = 0;
    while i < items.len()
        invariant
            i <= items@.len(),
            ms == models(items@),
            forall|j: int| 0 <= j < i ==> is_flat(#[trigger] ms[j]),
        decreases items.len() - i,
    {
        assert(ms[i as int] == model(items@[i as int]));
        if !check_flat(&items[i]) {
            return None;
        }
        i = i + 1;
    }
    let names = order_columns(items);
    let ghost ns = columns(ms);
    let mut declared: Vec<String> = Vec::new();
    let mut k: usize = 0;
    while k < names.len()
        invariant
            k <= names@.len(),
            ms == models(items@),
            ns == views(names@),
            declared@.len() == k,
            forall|j: int| 0 <= j < k ==> (#[trigger] declared@[j])@ == column_text(ms, ns[j]),
        decreases names.len() - k,
    {
        declared.push(declare_column(items, names[k].as_str()));
        k = k + 1;
    }
    assert(views(declared@) =~= column_texts(ms));
    let mut out = copy_str("[");
    let count = decimal_usize(items.len());
    out.append(count.as_str());
    out.append("]{");
    let header = join_texts(&declared, ",");
    out.append(header.as_str());
    out.append("}\n");
    let ghost head = out@;
    let mut row: usize = 0;
    assert(ms.take(0) =~= seq![]);
    assert(head + csv_rows(ms.take(0), ns) =~= head);
    while row < items.len()
        invariant
            row <= items@.len(),
            ms == models(items@),
            ns == views(names@),
            out@ == head + csv_rows(ms.take(row as int), ns),
        decreases items.len() - row,
    {
        assert(ms.take(row + 1).drop_last() =~= ms.take(row as int));
        assert(ms.take(row + 1).last() == model(items@[row as int]));
        let line = row_text(&items[row], &names);
        out.append(line.as_str());
        assert(out@ =~= head + csv_rows(ms.take(row + 1), ns));
        row = row + 1;
    }
    assert(ms.take(ms.len() as int) =~= ms);
    Some(out)
}

// ---------------------------------------------------------------------------
// Laws
// ---------------------------------------------------------------------------

/// The text that a string cell holds.
pub open spec fn csv_unquoted(cell: Seq<char>) -> Seq<char> {
    if first_is(cell, '"') {
        undoubled(cell.subrange(1, cell.len() - 1))
    } else {
        cell
    }
}

/// The text with each doubled quote made one.
pub open spec fn undoubled(s: Seq<char>) -> Seq<char>
    decreases s.len(),
{
    if s.len() == 0 {
        seq![]
    } else if s[0] == '"' && s.len() > 1 {
        seq!['"'] + undoubled(s.skip(2))
    } else {
        seq![s[0]] + undoubled(s.drop_first())
    }
}

proof fn lemma_undoubled(s: Seq<char>)
    ensures
        undoubled(doubled(s)) == s,
    decreases s.len(),
{
    let d = doubled(s);
    if s.len() == 0 {
        assert(undoubled(d) =~= s);
    } else {
        let rest = s.drop_first();
        lemma_undoubled(rest);
        if s[0] == '"' {
            assert(d.skip(2) =~= doubled(rest));
        } else {
            assert(d.drop_first() =~= doubled(rest));
        }
        assert(undoubled(d) =~= seq![s[0]] + rest);
        assert(seq![s[0]] + rest =~= s);
    }
}

/// A string can be read back from its cell.
pub proof fn strings_are_kept(s: Seq<char>)
    ensures
        csv_unquoted(csv_cell(JsonModel::Text(s))) == s,
{
    let cell = csv_string(s);
    if needs_csv_quotes(s) || looks_otherwise(s) {
        assert(cell.subrange(1, cell.len() - 1) =~= doubled(s));
        lemma_undoubled(s);
    } else if first_is(s, '"') {
        assert(s.contains(s[0]));
    }
}

/// Every field of every object has a column.
pub proof fn every_field_has_a_column(items: Seq<JsonModel>, i: int, k: int)
    requires
        0 <= i < items.len(),
        items[i] is Object,
        0 <= k < items[i]->Object_0.len(),
    ensures
        holds(columns(items), items[i]->Object_0[k].0),
{
    let names = all_names(items);
    let name = items[i]->Object_0[k].0;
    lemma_all_names(items, i, k);
    let j = choose|j: int| 0 <= j < names.len() && #[trigger] names[j] == name;
    let order = stable_order(negated_frequencies(items, names));
    stable_order_sorts(negated_frequencies(items, names));
    assert(order.contains(j));
    let x = choose|x: int| 0 <= x < order.len() && order[x] == j;
    assert(columns(items)[x] == name);
}

proof fn lemma_with_name(names: Seq<Seq<char>>, name: Seq<char>)
    ensures
        holds(with_name(names, name), name),
        forall|t: Seq<char>| holds(names, t) ==> #[trigger] holds(with_name(names, name), t),
    decreases names.len(),
{
    let out = with_name(names, name);
    if names.len() == 0 {
        assert(out[0] == name);
    } else if names[0] == name {
    } else if text_less(name, names[0]) {
        assert(out[0] == name);
        assert forall|t: Seq<char>| holds(names, t) implies #[trigger] holds(out, t) by {
            let j = choose|j: int| 0 <= j < names.len() && #[trigger] names[j] == t;
            assert(out[j + 1] == t);
        }
    } else {
        let rest = names.drop_first();
        let tail = with_name(rest, name);
        lemma_with_name(rest, name);
        let j = choose|j: int| 0 <= j < tail.len() && #[trigger] tail[j] == name;
        assert(out[j + 1] == name);
        assert forall|t: Seq<char>| holds(names, t) implies #[trigger] holds(out, t) by {
            let j = choose|j: int| 0 <= j < names.len() && #[trigger] names[j] == t;
            if j == 0 {
                assert(out[0] == t);
            } else {
                assert(rest[j - 1] == t);
                assert(holds(rest, t));
                assert(holds(tail, t));
                let x = choose|x: int| 0 <= x < tail.len() && #[trigger] tail[x] == t;
                assert(out[x + 1] == t);
            }
        }
    }
}

proof fn lemma_with_names_of(names: Seq<Seq<char>>, fs: Seq<(Seq<char>, JsonModel)>)
    ensures
        forall|t: Seq<char>| holds(names, t) ==> #[trigger] holds(with_names_of(names, fs), t),
        forall|k: int| 0 <= k < fs.len() ==> holds(with_names_of(names, fs), (#[trigger] fs[k]).0),
    decreases fs.len(),
{
    if fs.len() > 0 {
        let rest = fs.drop_last();
        lemma_with_names_of(names, rest);
        let before = with_names_of(names, rest);
        lemma_with_name(before, fs.last().0);
        assert forall|k: int| 0 <= k < fs.len() implies holds(
            with_names_of(names, fs),
            (#[trigger] fs[k]).0,
        ) by {
            if k < rest.len() {
                assert(rest[k] == fs[k]);
                assert(holds(before, rest[k].0));
            }
        }
        assert forall|t: Seq<char>| holds(names, t) implies #[trigger] holds(with_names_of(names, fs), t) by {
            assert(holds(before, t));
        }
    }
}

proof fn lemma_all_names(items: Seq<JsonModel>, i: int, k: int)
    requires
        0 <= i < items.len(),
        0 <= k < items[i]->Object_0.len(),
    ensures
        holds(all_names(items), items[i]->Object_0[k].0),
    decreases items.len(),
{
    let rest = items.drop_last();
    lemma_with_names_of(all_names(rest), items.last()->Object_0);
    if i < rest.len() {
        lemma_all_names(rest, i, k);
    }
}

// ---------------------------------------------------------------------------
// What can be read back from a table
// ---------------------------------------------------------------------------

/// A cell of a table: a text without commas, quotes and line ends, or a quoted one.
spec fn is_cell(c: Seq<char>) -> bool {
    !needs_csv_quotes(c) || exists|s: Seq<char>| c == #[trigger] csv_quoted(s)
}

spec fn ends_cell(c: char) -> bool {
    c == ',' || c == '\n'
}

proof fn lemma_quoted_end(s: Seq<char>, t: Seq<char>, a: Seq<char>, b: Seq<char>)
    requires
        doubled(s) + seq!['"'] + a == doubled(t) + seq!['"'] + b,
        a.len() > 0 && a[0] != '"',
        b.len() > 0 && b[0] != '"',
    ensures
        s == t,
        a == b,
    decreases s.len(),
{
    let x = doubled(s) + seq!['"'] + a;
    let y = doubled(t) + seq!['"'] + b;
    if s.len() == 0 {
        assert(x[0] == '"' && x[1] == a[0]);
        if t.len() > 0 {
            if t[0] == '"' {
                assert(y[1] == '"');
            } else {
                assert(y[0] == t[0]);
            }
        }
        assert(s =~= t);
        assert(a =~= x.skip(1) && b =~= y.skip(1));
    } else if t.len() == 0 {
        assert(y[0] == '"' && y[1] == b[0]);
        if s[0] == '"' {
            assert(x[1] == '"');
        } else {
            assert(x[0] == s[0]);
        }
    } else {
        assert(x[0] == s[0] && y[0] == t[0]);
        let k: int = if s[0] == '"' {
            2
        } else {
            1
        };
        assert(x.skip(k) =~= doubled(s.drop_first()) + seq!['"'] + a);
        assert(y.skip(k) =~= doubled(t.drop_first()) + seq!['"'] + b);
        lemma_quoted_end(s.drop_first(), t.drop_first(), a, b);
        assert(s =~= seq![s[0]] + s.drop_first());
        assert(t =~= seq![t[0]] + t.drop_first());
    }
}

/// Where a plain cell ends can be seen.
proof fn lemma_plain_end(c: Seq<char>, d: Seq<char>, a: Seq<char>, b: Seq<char>)
    requires
        !needs_csv_quotes(c),
        !needs_csv_quotes(d),
        c + a == d + b,
        a.len() > 0 && ends_cell(a[0]),
        b.len() > 0 && ends_cell(b[0]),
    ensures
        c == d,
        a == b,
{
    let x = c + a;
    let y = d + b;
    if c.len() < d.len() {
        assert(x[c.len() as int] == a[0]);
        assert(d.contains(d[c.len() as int]));
    }
    if d.len() < c.len() {
        assert(y[d.len() as int] == b[0]);
        assert(c.contains(c[d.len() as int]));
    }
    assert(c =~= x.take(c.len() as int));
    assert(d =~= y.take(c.len() as int));
    assert(a =~= x.skip(c.len() as int));
    assert(b =~= y.skip(c.len() as int));
}

/// Where a cell ends can be seen.
proof fn lemma_cell_end(c: Seq<char>, d: Seq<char>, a: Seq<char>, b: Seq<char>)
    requires
        is_cell(c),
        is_cell(d),
        c + a == d + b,
        a.len() > 0 && ends_cell(a[0]),
        b.len() > 0 && ends_cell(b[0]),
    ensures
        c == d,
        a == b,
{
    let x = c + a;
    let y = d + b;
    if !needs_csv_quotes(c) && !needs_csv_quotes(d) {
        lemma_plain_end(c, d, a, b);
    } else if !needs_csv_quotes(c) {
        assert(y[0] == d[0]);
        if c.len() > 0 {
            assert(c.contains(c[0]));
            assert(x[0] == c[0]);
        } else {
            assert(x[0] == a[0]);
        }
    } else if !needs_csv_quotes(d) {
        assert(x[0] == c[0]);
        if d.len() > 0 {
            assert(d.contains(d[0]));
            assert(y[0] == d[0]);
        } else {
            assert(y[0] == b[0]);
        }
    } else {
        let s = choose|s: Seq<char>| c == #[trigger] csv_quoted(s);
        let t = choose|t: Seq<char>| d == #[trigger] csv_quoted(t);
        assert(x.skip(1) =~= doubled(s) + seq!['"'] + a);
        assert(y.skip(1) =~= doubled(t) + seq!['"'] + b);
        lemma_quoted_end(s, t, a, b);
    }
}

spec fn all_cells(cells: Seq<Seq<char>>) -> bool {
    forall|i: int| 0 <= i < cells.len() ==> is_cell(#[trigger] cells[i])
}

/// The cells of a row can be told apart.
proof fn lemma_row_end(p: Seq<Seq<char>>, q: Seq<Seq<char>>, a: Seq<char>, b: Seq<char>)
    requires
        p.len() == q.len() > 0,
        all_cells(p),
        all_cells(q),
        join(p, ","@) + "\n"@ + a == join(q, ","@) + "\n"@ + b,
    ensures
        p == q,
        a == b,
    decreases p.len(),
{
    reveal_strlit(",");
    reveal_strlit("\n");
    assert(is_cell(p[0]) && is_cell(q[0]));
    let x = join(p, ","@) + "\n"@ + a;
    let y = join(q, ","@) + "\n"@ + b;
    if p.len() == 1 {
        let u = "\n"@ + a;
        let v = "\n"@ + b;
        assert(x =~= p[0] + u);
        assert(y =~= q[0] + v);
        lemma_cell_end(p[0], q[0], u, v);
        assert(a =~= u.skip(1));
        assert(b =~= v.skip(1));
        assert(p =~= q);
    } else {
        let ps = p.drop_first();
        let qs = q.drop_first();
        lemma_join_first(p, ","@);
        lemma_join_first(q, ","@);
        let u = ","@ + (join(ps, ","@) + "\n"@ + a);
        let v = ","@ + (join(qs, ","@) + "\n"@ + b);
        assert(x =~= p[0] + u);
        assert(y =~= q[0] + v);
        lemma_cell_end(p[0], q[0], u, v);
        assert(join(ps, ","@) + "\n"@ + a =~= u.skip(1));
        assert(join(qs, ","@) + "\n"@ + b =~= v.skip(1));
        assert forall|i: int| 0 <= i < ps.len() implies is_cell(#[trigger] ps[i]) by {
            assert(ps[i] == p[i + 1]);
        }
        assert forall|i: int| 0 <= i < qs.len() implies is_cell(#[trigger] qs[i]) by {
            assert(qs[i] == q[i + 1]);
        }
        lemma_row_end(ps, qs, a, b);
        assert(p =~= seq![p[0]] + ps);
        assert(q =~= seq![q[0]] + qs);
    }
}

proof fn lemma_rows_first(items: Seq<JsonModel>, names: Seq<Seq<char>>)
    requires
        items.len() > 0,
    ensures
        csv_rows(items, names) == csv_row(items[0], names) + csv_rows(items.drop_first(), names),
    decreases items.len(),
{
    let rest = items.drop_first();
    if items.len() == 1 {
        assert(items.drop_last() =~= Seq::<JsonModel>::empty());
        assert(rest =~= Seq::<JsonModel>::empty());
        assert(csv_rows(items, names) =~= csv_row(items[0], names) + csv_rows(rest, names));
    } else {
        lemma_rows_first(items.drop_last(), names);
        assert(items.drop_last().drop_first() =~= rest.drop_last());
        assert(csv_rows(items, names) =~= csv_row(items[0], names) + (csv_rows(rest.drop_last(), names)
            + csv_row(rest.last(), names)));
    }
}

spec fn all_well_formed(items: Seq<JsonModel>) -> bool {
    forall|i: int| 0 <= i < items.len() ==> well_formed(#[trigger] items[i])
}

proof fn lemma_literals()
    ensures
        ""@ == Seq::<char>::empty(),
        "null"@ == seq!['n', 'u', 'l', 'l'],
        "true"@ == seq!['t', 'r', 'u', 'e'],
        "false"@ == seq!['f', 'a', 'l', 's', 'e'],
{
    reveal_strlit("");
    reveal_strlit("null");
    reveal_strlit("true");
    reveal_strlit("false");
    assert(""@ =~= Seq::<char>::empty());
    assert("null"@ =~= seq!['n', 'u', 'l', 'l']);
    assert("true"@ =~= seq!['t', 'r', 'u', 'e']);
    assert("false"@ =~= seq!['f', 'a', 'l', 's', 'e']);
}

/// A number needs no quotes and is not taken for a word.
proof fn lemma_number_cell(t: Seq<char>)
    requires
        numeric_like(t),
    ensures
        !needs_csv_quotes(t),
        t.len() > 0,
        numeric_char(t[0]),
        t != "null"@ && t != "true"@ && t != "false"@,
{
    lemma_literals();
    lemma_numeric_chars(t);
    assert(numeric_char(t[0]));
}

/// The field that a name finds is one of the fields.
proof fn lemma_found(fs: Seq<(Seq<char>, JsonModel)>, name: Seq<char>)
    requires
        field(fs, name) is Some,
    ensures
        exists|k: int| 0 <= k < fs.len() && (#[trigger] fs[k]).0 == name && Some(fs[k].1) == field(fs, name),
    decreases fs.len(),
{
    if fs[0].0 != name {
        let rest = fs.drop_first();
        lemma_found(rest, name);
        let k = choose|k: int|
            0 <= k < rest.len() && (#[trigger] rest[k]).0 == name && Some(rest[k].1) == field(rest, name);
        assert(fs[k + 1] == rest[k]);
    } else {
        assert(fs[0].0 == name);
    }
}

/// What a field of a flat object is.
proof fn lemma_field_of_flat(item: JsonModel, name: Seq<char>)
    requires
        is_flat(item),
        well_formed(item),
    ensures
        item.get(name) matches Some(v) ==> v.is_scalar() && well_formed(v),
{
    let fs = item->Object_0;
    if field(fs, name) is Some {
        lemma_found(fs, name);
        let k = choose|k: int|
            0 <= k < fs.len() && (#[trigger] fs[k]).0 == name && Some(fs[k].1) == field(fs, name);
        assert(is_simple(item->Object_0[k].1));
        assert(well_formed(item->Object_0[k].1));
    }
}

proof fn lemma_cells(item: JsonModel, names: Seq<Seq<char>>)
    requires
        is_flat(item),
        well_formed(item),
    ensures
        all_cells(csv_cells(item, names)),
{
    lemma_literals();
    let cells = csv_cells(item, names);
    assert forall|i: int| 0 <= i < cells.len() implies is_cell(#[trigger] cells[i]) by {
        lemma_field_of_flat(item, names[i]);
        match item.get(names[i]) {
            Some(JsonModel::Int(n)) => {
                lemma_signed_dec_numeric(n);
                lemma_number_cell(signed_dec(n));
            },
            Some(JsonModel::Float(t)) => {
                assert(is_float_text(t));
                lemma_number_cell(t);
            },
            Some(JsonModel::Text(s)) => {
                if needs_csv_quotes(s) || looks_otherwise(s) {
                    assert(cells[i] == csv_quoted(s));
                }
            },
            _ => {},
        }
    }
}

/// Two tables with the same columns and equally many rows that are written the same have the same
/// cells.
proof fn lemma_same_cells(a: Seq<JsonModel>, b: Seq<JsonModel>, names: Seq<Seq<char>>, i: int)
    requires
        names.len() > 0,
        a.len() == b.len(),
        all_flat(a),
        all_flat(b),
        all_well_formed(a),
        all_well_formed(b),
        csv_rows(a, names) == csv_rows(b, names),
        0 <= i < a.len(),
    ensures
        csv_cells(a[i], names) == csv_cells(b[i], names),
    decreases i,
{
    lemma_rows_first(a, names);
    lemma_rows_first(b, names);
    let p = csv_cells(a[0], names);
    let q = csv_cells(b[0], names);
    let u = csv_rows(a.drop_first(), names);
    let v = csv_rows(b.drop_first(), names);
    assert(is_flat(a[0]) && is_flat(b[0]) && well_formed(a[0]) && well_formed(b[0]));
    lemma_cells(a[0], names);
    lemma_cells(b[0], names);
    lemma_row_end(p, q, u, v);
    if i > 0 {
        let x = a.drop_first();
        let y = b.drop_first();
        assert forall|k: int| 0 <= k < x.len() implies is_flat(#[trigger] x[k]) && well_formed(x[k]) by {
            assert(is_flat(a[k + 1]) && well_formed(a[k + 1]));
        }
        assert forall|k: int| 0 <= k < y.len() implies is_flat(#[trigger] y[k]) && well_formed(y[k]) by {
            assert(is_flat(b[k + 1]) && well_formed(b[k + 1]));
        }
        lemma_same_cells(x, y, names, i - 1);
    }
}

/// A value that is there and one that is not, null, the empty string, and a number and a string of the
/// same digits: all are written differently. Fields that are written the same are the same.
pub proof fn values_are_kept(x: Option<JsonModel>, y: Option<JsonModel>)
    requires
        x matches Some(v) ==> v.is_scalar() && well_formed(v),
        y matches Some(v) ==> v.is_scalar() && well_formed(v),
        optional_cell(x) == optional_cell(y),
    ensures
        x == y,
{
    lemma_literals();
    lemma_shape(x);
    lemma_shape(y);
    match (x, y) {
        (Some(JsonModel::Int(m)), Some(JsonModel::Int(n))) => {
            if m < 0 && n < 0 {
                assert(dec((-m) as nat) =~= signed_dec(m).skip(1));
                assert(dec((-n) as nat) =~= signed_dec(n).skip(1));
                lemma_dec((-m) as nat);
                lemma_dec((-n) as nat);
            } else if m >= 0 && n >= 0 {
                lemma_dec(m as nat);
                lemma_dec(n as nat);
            }
        },
        (Some(JsonModel::Text(s)), Some(JsonModel::Text(t))) => {
            strings_are_kept(s);
            strings_are_kept(t);
        },
        _ => {},
    }
}

/// What the cell of a field looks like, by what the field is.
proof fn lemma_shape(x: Option<JsonModel>)
    requires
        x matches Some(v) ==> v.is_scalar() && well_formed(v),
    ensures
        ({
            let c = optional_cell(x);
            match x {
                None => c.len() == 0,
                Some(JsonModel::Int(n)) => numeric_like(c) && !has_char(c, '.') && !has_char(c, 'e')
                    && c.len() > 0 && numeric_char(c[0]) && (first_is(c, '-') <==> n < 0),
                Some(JsonModel::Float(_)) => numeric_like(c) && (has_char(c, '.') || has_char(c, 'e'))
                    && c.len() > 0 && numeric_char(c[0]),
                Some(JsonModel::Text(_)) => first_is(c, '"') || !looks_otherwise(c),
                _ => c == "null"@ || c == "true"@ || c == "false"@,
            }
        }),
{
    match x {
        Some(JsonModel::Int(n)) => {
            lemma_signed_dec_numeric(n);
            lemma_number_cell(signed_dec(n));
        },
        Some(JsonModel::Float(t)) => {
            assert(is_float_text(t));
            lemma_number_cell(t);
        },
        Some(JsonModel::Text(s)) => {
            assert(csv_quoted(s)[0] == '"');
        },
        None => {
            lemma_literals();
        },
        _ => {},
    }
}

/// Fields in ascending order that find the same by every name are the same.
proof fn lemma_same_fields(fs: Seq<(Seq<char>, JsonModel)>, gs: Seq<(Seq<char>, JsonModel)>)
    requires
        ascending(fs),
        ascending(gs),
        forall|name: Seq<char>| #[trigger] field(fs, name) == field(gs, name),
    ensures
        fs == gs,
    decreases fs.len(),
{
    if fs.len() == 0 {
        if gs.len() > 0 {
            assert(field(fs, gs[0].0) == field(gs, gs[0].0));
        }
        assert(fs =~= gs);
    } else {
        let name = fs[0].0;
        assert(field(fs, name) == field(gs, name));
        lemma_found(gs, name);
        let k = choose|k: int| 0 <= k < gs.len() && (#[trigger] gs[k]).0 == name && Some(gs[k].1) == field(gs, name);
        if k > 0 {
            assert(text_less(gs[0].0, gs[k].0));
            assert(field(fs, gs[0].0) == field(gs, gs[0].0));
            lemma_found(fs, gs[0].0);
            let j = choose|j: int|
                0 <= j < fs.len() && (#[trigger] fs[j]).0 == gs[0].0 && Some(fs[j].1) == field(fs, gs[0].0);
            lemma_text_less_irreflexive(name);
            if j > 0 {
                assert(text_less(fs[0].0, fs[j].0));
                lemma_text_less_transitive(name, gs[0].0, name);
            }
        }
        assert(gs[0] == fs[0]);
        let f = fs.drop_first();
        let g = gs.drop_first();
        lemma_rest_ascends(fs);
        lemma_rest_ascends(gs);
        assert forall|t: Seq<char>| #[trigger] field(f, t) == field(g, t) by {
            if t != name {
                assert(field(fs, t) == field(gs, t));
            }
        }
        lemma_same_fields(f, g);
        assert(fs =~= seq![fs[0]] + f);
        assert(gs =~= seq![gs[0]] + g);
    }
}

/// Behind its first field, ascending fields ascend and do not have its name.
proof fn lemma_rest_ascends(fs: Seq<(Seq<char>, JsonModel)>)
    requires
        fs.len() > 0,
        ascending(fs),
    ensures
        ascending(fs.drop_first()),
        field(fs.drop_first(), fs[0].0) is None,
{
    let f = fs.drop_first();
    assert forall|i: int, j: int| 0 <= i < j < f.len() implies text_less(
        (#[trigger] f[i]).0,
        (#[trigger] f[j]).0,
    ) by {
        assert(f[i] == fs[i + 1] && f[j] == fs[j + 1]);
    }
    if field(f, fs[0].0) is Some {
        lemma_found(f, fs[0].0);
        let k = choose|k: int| 0 <= k < f.len() && (#[trigger] f[k]).0 == fs[0].0 && Some(f[k].1) == field(f, fs[0].0);
        assert(f[k] == fs[k + 1]);
        assert(text_less(fs[0].0, fs[k + 1].0));
        lemma_text_less_irreflexive(fs[0].0);
    }
}

/// Texts that end at the same kind of character end at the same place.
proof fn lemma_same_end(c: Seq<char>, d: Seq<char>, a: Seq<char>, b: Seq<char>, x: char, y: char)
    requires
        !has_char(c, x) && !has_char(c, y),
        !has_char(d, x) && !has_char(d, y),
        c + a == d + b,
        a.len() > 0 && (a[0] == x || a[0] == y),
        b.len() > 0 && (b[0] == x || b[0] == y),
    ensures
        c == d,
        a == b,
{
    let u = c + a;
    let v = d + b;
    if c.len() < d.len() {
        assert(u[c.len() as int] == a[0]);
        assert(d.contains(d[c.len() as int]));
    }
    if d.len() < c.len() {
        assert(v[d.len() as int] == b[0]);
        assert(c.contains(c[d.len() as int]));
    }
    assert(c =~= u.take(c.len() as int));
    assert(d =~= v.take(c.len() as int));
    assert(a =~= u.skip(c.len() as int));
    assert(b =~= v.skip(c.len() as int));
}

/// Where the name of a column ends can be seen.
proof fn lemma_name_end(m: Seq<char>, n: Seq<char>, a: Seq<char>, b: Seq<char>)
    requires
        column_name(m) + (seq![':'] + a) == column_name(n) + (seq![':'] + b),
    ensures
        m == n,
        a == b,
{
    let p = column_name(m);
    let q = column_name(n);
    let u = seq![':'] + a;
    let v = seq![':'] + b;
    let x = p + u;
    let y = q + v;
    lemma_column_name(m);
    lemma_column_name(n);
    assert(x[0] == p[0] && y[0] == q[0]);
    if p[0] == '"' {
        assert(x.skip(1) =~= doubled(m) + seq!['"'] + u);
        assert(y.skip(1) =~= doubled(n) + seq!['"'] + v);
        lemma_quoted_end(m, n, u, v);
    } else {
        lemma_same_end(p, q, u, v, ':', ':');
    }
    assert(a =~= u.skip(1));
    assert(b =~= v.skip(1));
}

/// A name is written between quotes or without quotes, colons and braces.
proof fn lemma_column_name(n: Seq<char>)
    ensures
        column_name(n).len() > 0,
        column_name(n)[0] != '}',
        column_name(n)[0] == '"' ==> column_name(n) == csv_quoted(n),
        column_name(n)[0] != '"' ==> column_name(n) == n && !has_char(n, ':'),
{
    if column_name(n) == n && n.len() > 0 {
        assert(n.contains(n[0]));
    }
}

/// What follows the name of a column.
spec fn column_end(items: Seq<JsonModel>, name: Seq<char>) -> Seq<char> {
    tag_name(column_tag(items, name)) + if is_nullable(items, name) {
        "?"@
    } else {
        ""@
    }
}

proof fn lemma_column_end(items: Seq<JsonModel>, name: Seq<char>)
    ensures
        !has_char(column_end(items, name), ','),
        !has_char(column_end(items, name), '}'),
        column_text(items, name) == column_name(name) + (seq![':'] + column_end(items, name)),
{
    reveal_strlit("bool");
    reveal_strlit("int");
    reveal_strlit("float");
    reveal_strlit("string");
    reveal_strlit("json");
    reveal_strlit("?");
    reveal_strlit("");
    reveal_strlit(":");
    assert(column_text(items, name) =~= column_name(name) + (seq![':'] + column_end(items, name)));
}

spec fn texts_of(items: Seq<JsonModel>, names: Seq<Seq<char>>) -> Seq<Seq<char>> {
    Seq::new(names.len(), |i: int| column_text(items, names[i]))
}

/// The columns can be read from the line that declares them.
proof fn lemma_same_columns(
    a: Seq<JsonModel>,
    b: Seq<JsonModel>,
    m: Seq<Seq<char>>,
    n: Seq<Seq<char>>,
    u: Seq<char>,
    v: Seq<char>,
)
    requires
        join(texts_of(a, m), ","@) + (seq!['}'] + u) == join(texts_of(b, n), ","@) + (seq!['}'] + v),
    ensures
        m == n,
        u == v,
    decreases m.len(),
{
    reveal_strlit(",");
    let p = texts_of(a, m);
    let q = texts_of(b, n);
    let x = join(p, ","@) + (seq!['}'] + u);
    let y = join(q, ","@) + (seq!['}'] + v);
    if m.len() > 0 {
        lemma_columns_first(a, m, u);
    } else {
        assert(x =~= seq!['}'] + u);
    }
    if n.len() > 0 {
        lemma_columns_first(b, n, v);
    } else {
        assert(y =~= seq!['}'] + v);
    }
    if m.len() == 0 && n.len() == 0 {
        assert(m =~= n);
        assert(u =~= x.skip(1));
        assert(v =~= y.skip(1));
    } else if m.len() == 0 {
        lemma_column_name(n[0]);
        assert(y[0] == column_name(n[0])[0]);
        assert(x[0] == '}');
    } else if n.len() == 0 {
        lemma_column_name(m[0]);
        assert(x[0] == column_name(m[0])[0]);
        assert(y[0] == '}');
    } else {
        let c = column_end(a, m[0]);
        let d = column_end(b, n[0]);
        let s = columns_behind(a, m, u);
        let t = columns_behind(b, n, v);
        lemma_name_end(m[0], n[0], c + s, d + t);
        lemma_column_end(a, m[0]);
        lemma_column_end(b, n[0]);
        lemma_same_end(c, d, s, t, ',', '}');
        let ms = m.drop_first();
        let ns = n.drop_first();
        assert(s[0] == t[0]);
        if m.len() == 1 {
            assert(n.len() == 1);
            assert(u =~= s.skip(1));
            assert(v =~= t.skip(1));
            assert(m =~= n);
        } else {
            assert(n.len() > 1);
            assert(s.skip(1) =~= join(texts_of(a, ms), ","@) + (seq!['}'] + u));
            assert(t.skip(1) =~= join(texts_of(b, ns), ","@) + (seq!['}'] + v));
            lemma_same_columns(a, b, ms, ns, u, v);
            assert(m =~= seq![m[0]] + ms);
            assert(n =~= seq![n[0]] + ns);
        }
    }
}

/// What follows the declaration of the first column.
spec fn columns_behind(items: Seq<JsonModel>, names: Seq<Seq<char>>, u: Seq<char>) -> Seq<char> {
    if names.len() == 1 {
        seq!['}'] + u
    } else {
        seq![','] + (join(texts_of(items, names.drop_first()), ","@) + (seq!['}'] + u))
    }
}

proof fn lemma_columns_first(items: Seq<JsonModel>, names: Seq<Seq<char>>, u: Seq<char>)
    requires
        names.len() > 0,
    ensures
        join(texts_of(items, names), ","@) + (seq!['}'] + u) == column_name(names[0]) + (seq![':'] + (
        column_end(items, names[0]) + columns_behind(items, names, u))),
{
    reveal_strlit(",");
    let p = texts_of(items, names);
    let tail = seq!['}'] + u;
    lemma_column_end(items, names[0]);
    let name = column_name(names[0]);
    let end = column_end(items, names[0]);
    assert(p[0] == name + (seq![':'] + end));
    if names.len() == 1 {
        assert(join(p, ","@) + tail =~= name + (seq![':'] + (end + tail)));
    } else {
        lemma_join_first(p, ","@);
        assert(p.drop_first() =~= texts_of(items, names.drop_first()));
        let rest = join(texts_of(items, names.drop_first()), ","@) + tail;
        assert(join(p, ","@) + tail =~= name + (seq![':'] + (end + (seq![','] + rest))));
    }
}

/// Items with the same columns and the same cells are the same.
proof fn lemma_same_item(a: Seq<JsonModel>, b: Seq<JsonModel>, i: int)
    requires
        all_flat(a),
        all_flat(b),
        all_well_formed(a),
        all_well_formed(b),
        a.len() == b.len(),
        columns(a) == columns(b),
        csv_rows(a, columns(a)) == csv_rows(b, columns(b)),
        0 <= i < a.len(),
    ensures
        a[i] == b[i],
{
    let m = columns(a);
    assert(is_flat(a[i]) && is_flat(b[i]) && well_formed(a[i]) && well_formed(b[i]));
    let fs = a[i]->Object_0;
    let gs = b[i]->Object_0;
    assert(a[i] == JsonModel::Object(fs) && b[i] == JsonModel::Object(gs));
    if m.len() > 0 {
        lemma_same_cells(a, b, m, i);
    }
    assert forall|name: Seq<char>| #[trigger] field(fs, name) == field(gs, name) by {
        if holds(m, name) {
            let k = choose|k: int| 0 <= k < m.len() && #[trigger] m[k] == name;
            assert(csv_cells(a[i], m)[k] == csv_cells(b[i], m)[k]);
            lemma_field_of_flat(a[i], name);
            lemma_field_of_flat(b[i], name);
            values_are_kept(a[i].get(name), b[i].get(name));
        } else {
            lemma_has_column(a, i, name);
            lemma_has_column(b, i, name);
        }
    }
    lemma_same_fields(fs, gs);
}

proof fn lemma_has_column(items: Seq<JsonModel>, i: int, name: Seq<char>)
    requires
        0 <= i < items.len(),
        items[i] is Object,
        !holds(columns(items), name),
    ensures
        field(items[i]->Object_0, name) is None,
{
    let fs = items[i]->Object_0;
    if field(fs, name) is Some {
        lemma_found(fs, name);
        let k = choose|k: int|
            0 <= k < fs.len() && (#[trigger] fs[k]).0 == name && Some(fs[k].1) == field(fs, name);
        every_field_has_a_column(items, i, k);
    }
}

proof fn lemma_no_bracket(n: nat)
    ensures
        !has_char(dec(n), ']'),
{
    lemma_dec(n);
    let d = dec(n);
    if d.contains(']') {
        let k = choose|k: int| 0 <= k < d.len() && d[k] == ']';
        assert(is_digit(d[k]));
    }
}

/// What follows the number of items in a table.
spec fn behind_count(items: Seq<JsonModel>) -> Seq<char> {
    seq!['{'] + (join(texts_of(items, columns(items)), ","@) + (seq!['}'] + (seq!['\n'] + csv_rows(
        items,
        columns(items),
    ))))
}

proof fn lemma_table_parts(items: Seq<JsonModel>)
    ensures
        csv_text(items) == seq!['['] + (dec(items.len()) + (seq![']'] + behind_count(items))),
{
    reveal_strlit("[");
    reveal_strlit("]{");
    reveal_strlit("}\n");
    assert(texts_of(items, columns(items)) =~= column_texts(items));
    assert(csv_text(items) =~= seq!['['] + (dec(items.len()) + (seq![']'] + behind_count(items))));
}

proof fn lemma_same_count(a: Seq<JsonModel>, b: Seq<JsonModel>)
    requires
        csv_text(a) == csv_text(b),
    ensures
        dec(a.len()) == dec(b.len()),
        behind_count(a) == behind_count(b),
{
    lemma_table_parts(a);
    lemma_table_parts(b);
    lemma_no_bracket(a.len());
    lemma_no_bracket(b.len());
    let s = seq![']'] + behind_count(a);
    let t = seq![']'] + behind_count(b);
    assert(dec(a.len()) + s =~= csv_text(a).skip(1));
    assert(dec(b.len()) + t =~= csv_text(b).skip(1));
    lemma_same_end(dec(a.len()), dec(b.len()), s, t, ']', ']');
    assert(behind_count(a) =~= s.skip(1));
    assert(behind_count(b) =~= t.skip(1));
}

proof fn lemma_same_rows(a: Seq<JsonModel>, b: Seq<JsonModel>)
    requires
        behind_count(a) == behind_count(b),
    ensures
        columns(a) == columns(b),
        csv_rows(a, columns(a)) == csv_rows(b, columns(b)),
{
    let m = columns(a);
    let n = columns(b);
    let u = seq!['\n'] + csv_rows(a, m);
    let v = seq!['\n'] + csv_rows(b, n);
    assert(join(texts_of(a, m), ","@) + (seq!['}'] + u) =~= behind_count(a).skip(1));
    assert(join(texts_of(b, n), ","@) + (seq!['}'] + v) =~= behind_count(b).skip(1));
    lemma_same_columns(a, b, m, n, u, v);
    assert(csv_rows(a, m) =~= u.skip(1));
    assert(csv_rows(b, n) =~= v.skip(1));
}

/// Nothing is lost in a table: two arrays that are written the same are the same.
pub proof fn tables_are_kept(a: Seq<JsonModel>, b: Seq<JsonModel>)
    requires
        all_flat(a),
        all_flat(b),
        forall|i: int| 0 <= i < a.len() ==> well_formed(#[trigger] a[i]),
        forall|i: int| 0 <= i < b.len() ==> well_formed(#[trigger] b[i]),
        csv_text(a) == csv_text(b),
    ensures
        a == b,
{
    lemma_same_count(a, b);
    lemma_dec(a.len());
    lemma_dec(b.len());
    lemma_same_rows(a, b);
    assert forall|i: int| 0 <= i < a.len() implies a[i] == b[i] by {
        lemma_same_item(a, b, i);
    }
    assert(a =~= b);
}

// ---------------------------------------------------------------------------
// What a table tells
// ---------------------------------------------------------------------------

/// The value is an array or an object, or a string that reads as one.
pub open spec fn is_nested(m: JsonModel) -> bool {
    ||| m is Array
    ||| m is Object
    ||| m is Text && json_parse(m->Text_0) is Some && (json_parse(m->Text_0)->0 is Array || json_parse(
        m->Text_0,
    )->0 is Object)
}

/// Just objects without anything nested are written as a table.
pub proof fn tables_are_flat(items: Seq<JsonModel>)
    ensures
        all_flat(items) <==> forall|i: int, k: int|
            0 <= i < items.len() ==> (#[trigger] items[i]) is Object && (0 <= k
                < items[i]->Object_0.len() ==> !is_nested((#[trigger] items[i]->Object_0[k]).1)),
{
    if all_flat(items) {
        assert forall|i: int, k: int| 0 <= i < items.len() implies (#[trigger] items[i]) is Object && (0
            <= k < items[i]->Object_0.len() ==> !is_nested((#[trigger] items[i]->Object_0[k]).1)) by {
            assert(is_flat(items[i]));
            if 0 <= k < items[i]->Object_0.len() {
                assert(is_simple(items[i]->Object_0[k].1));
            }
        }
    } else {
        let i = choose|i: int| 0 <= i < items.len() && !is_flat(#[trigger] items[i]);
        if items[i] is Object {
            let fs = items[i]->Object_0;
            let k = choose|k: int| 0 <= k < fs.len() && !is_simple((#[trigger] fs[k]).1);
            assert(is_nested(items[i]->Object_0[k].1));
        } else {
            assert(!(items[i] is Object) && items[i]->Object_0[0] == items[i]->Object_0[0]);
        }
    }
}

/// How many of the objects have the field.
pub open spec fn how_many_have(items: Seq<JsonModel>, name: Seq<char>) -> nat {
    items.filter(|m: JsonModel| m.get(name) is Some).len()
}

proof fn lemma_how_many_have(items: Seq<JsonModel>, name: Seq<char>)
    ensures
        how_many_have(items, name) == frequency(items, name),
        frequency(items, name) <= items.len(),
        frequency(items, name) < items.len() <==> exists|i: int|
            0 <= i < items.len() && (#[trigger] items[i]).get(name) is None,
    decreases items.len(),
{
    reveal(Seq::filter);
    if items.len() > 0 {
        let rest = items.drop_last();
        lemma_how_many_have(rest, name);
        if frequency(items, name) < items.len() {
            if items.last().get(name) is None {
                assert(items[items.len() - 1].get(name) is None);
            } else {
                let i = choose|i: int| 0 <= i < rest.len() && (#[trigger] rest[i]).get(name) is None;
                assert(items[i].get(name) is None);
            }
        }
        if exists|i: int| 0 <= i < items.len() && (#[trigger] items[i]).get(name) is None {
            let i = choose|i: int| 0 <= i < items.len() && (#[trigger] items[i]).get(name) is None;
            if i < rest.len() {
                assert(rest[i].get(name) is None);
            }
        }
    }
}

pub open spec fn names_ascend(names: Seq<Seq<char>>) -> bool {
    forall|i: int, j: int| 0 <= i < j < names.len() ==> text_less(#[trigger] names[i], #[trigger] names[j])
}

proof fn lemma_with_name_ascends(names: Seq<Seq<char>>, name: Seq<char>)
    requires
        names_ascend(names),
    ensures
        names_ascend(with_name(names, name)),
        forall|i: int|
            0 <= i < with_name(names, name).len() ==> #[trigger] with_name(names, name)[i] == name || holds(
                names,
                with_name(names, name)[i],
            ),
    decreases names.len(),
{
    let out = with_name(names, name);
    if names.len() == 0 {
    } else if names[0] == name {
        assert forall|i: int| 0 <= i < out.len() implies #[trigger] out[i] == name || holds(names, out[i]) by {
            assert(names[i] == out[i]);
        }
    } else if text_less(name, names[0]) {
        assert forall|i: int, j: int| 0 <= i < j < out.len() implies text_less(
            #[trigger] out[i],
            #[trigger] out[j],
        ) by {
            assert(out[j] == names[j - 1]);
            if i > 0 {
                assert(out[i] == names[i - 1]);
            } else if j > 1 {
                assert(text_less(names[0], names[j - 1]));
                lemma_text_less_transitive(name, names[0], names[j - 1]);
            }
        }
        assert forall|i: int| 0 <= i < out.len() implies #[trigger] out[i] == name || holds(names, out[i]) by {
            if i > 0 {
                assert(names[i - 1] == out[i]);
            }
        }
    } else {
        let rest = names.drop_first();
        assert forall|i: int, j: int| 0 <= i < j < rest.len() implies text_less(
            #[trigger] rest[i],
            #[trigger] rest[j],
        ) by {
            assert(rest[i] == names[i + 1] && rest[j] == names[j + 1]);
        }
        let tail = with_name(rest, name);
        lemma_with_name_ascends(rest, name);
        lemma_text_less_total(name, names[0]);
        assert forall|i: int, j: int| 0 <= i < j < out.len() implies text_less(
            #[trigger] out[i],
            #[trigger] out[j],
        ) by {
            assert(out[j] == tail[j - 1]);
            if i > 0 {
                assert(out[i] == tail[i - 1]);
            } else if tail[j - 1] != name {
                let k = choose|k: int| 0 <= k < rest.len() && #[trigger] rest[k] == tail[j - 1];
                assert(rest[k] == names[k + 1]);
            }
        }
        assert forall|i: int| 0 <= i < out.len() implies #[trigger] out[i] == name || holds(names, out[i]) by {
            if i == 0 {
                assert(names[0] == out[0]);
            } else {
                assert(out[i] == tail[i - 1]);
                if tail[i - 1] != name {
                    let k = choose|k: int| 0 <= k < rest.len() && #[trigger] rest[k] == tail[i - 1];
                    assert(names[k + 1] == out[i]);
                }
            }
        }
    }
}

proof fn lemma_names_of_ascend(names: Seq<Seq<char>>, fs: Seq<(Seq<char>, JsonModel)>)
    requires
        names_ascend(names),
    ensures
        names_ascend(with_names_of(names, fs)),
        forall|i: int|
            0 <= i < with_names_of(names, fs).len() ==> holds(
                names,
                #[trigger] with_names_of(names, fs)[i],
            ) || exists|k: int| 0 <= k < fs.len() && (#[trigger] fs[k]).0 == with_names_of(names, fs)[i],
    decreases fs.len(),
{
    let out = with_names_of(names, fs);
    if fs.len() > 0 {
        let rest = fs.drop_last();
        let before = with_names_of(names, rest);
        lemma_names_of_ascend(names, rest);
        lemma_with_name_ascends(before, fs.last().0);
        assert forall|i: int| 0 <= i < out.len() implies holds(names, #[trigger] out[i]) || exists|k: int|
            0 <= k < fs.len() && (#[trigger] fs[k]).0 == out[i] by {
            if out[i] == fs.last().0 {
                assert(fs[fs.len() - 1].0 == out[i]);
            } else {
                let j = choose|j: int| 0 <= j < before.len() && #[trigger] before[j] == out[i];
                if !holds(names, before[j]) {
                    let k = choose|k: int| 0 <= k < rest.len() && (#[trigger] rest[k]).0 == before[j];
                    assert(fs[k].0 == out[i]);
                }
            }
        }
    } else {
        assert forall|i: int| 0 <= i < out.len() implies holds(names, #[trigger] out[i]) by {
            assert(names[i] == out[i]);
        }
    }
}

proof fn lemma_all_names_ascend(items: Seq<JsonModel>)
    ensures
        names_ascend(all_names(items)),
        forall|i: int|
            0 <= i < all_names(items).len() ==> exists|a: int, k: int|
                0 <= a < items.len() && 0 <= k < items[a]->Object_0.len() && (
                #[trigger] items[a]->Object_0[k]).0 == #[trigger] all_names(items)[i],
    decreases items.len(),
{
    if items.len() > 0 {
        let rest = items.drop_last();
        let before = all_names(rest);
        let out = all_names(items);
        let fs = items.last()->Object_0;
        lemma_all_names_ascend(rest);
        lemma_names_of_ascend(before, fs);
        assert forall|i: int| 0 <= i < out.len() implies exists|a: int, k: int|
            0 <= a < items.len() && 0 <= k < items[a]->Object_0.len() && (
            #[trigger] items[a]->Object_0[k]).0 == #[trigger] out[i] by {
            if holds(before, out[i]) {
                let j = choose|j: int| 0 <= j < before.len() && #[trigger] before[j] == out[i];
                let (a, k) = choose|a: int, k: int|
                    0 <= a < rest.len() && 0 <= k < rest[a]->Object_0.len() && (
                    #[trigger] rest[a]->Object_0[k]).0 == before[j];
                assert(items[a]->Object_0[k].0 == out[i]);
            } else {
                let k = choose|k: int| 0 <= k < fs.len() && (#[trigger] fs[k]).0 == out[i];
                assert(items[items.len() - 1]->Object_0[k].0 == out[i]);
            }
        }
    }
}

/// The fields that most objects have come first, and fields that as many have come by name. Each column
/// is a field of some object.
pub proof fn frequent_columns_come_first(items: Seq<JsonModel>, i: int, j: int)
    requires
        0 <= i < j < columns(items).len(),
    ensures
        ({
            let a = columns(items)[i];
            let b = columns(items)[j];
            &&& how_many_have(items, a) > how_many_have(items, b) || how_many_have(items, a)
                == how_many_have(items, b) && text_less(a, b)
            &&& exists|m: int, k: int|
                0 <= m < items.len() && 0 <= k < items[m]->Object_0.len() && (
                #[trigger] items[m]->Object_0[k]).0 == a
        }),
{
    let names = all_names(items);
    let keys = negated_frequencies(items, names);
    let order = stable_order(keys);
    stable_order_sorts(keys);
    lemma_all_names_ascend(items);
    let a = columns(items)[i];
    let b = columns(items)[j];
    assert(a == names[order[i]] && b == names[order[j]]);
    lemma_how_many_have(items, a);
    lemma_how_many_have(items, b);
    assert(keys[order[i]] == -(frequency(items, a) as int));
    assert(keys[order[j]] == -(frequency(items, b) as int));
    if keys[order[i]] == keys[order[j]] {
        assert(text_less(names[order[i]], names[order[j]]));
    }
}

/// A column is marked as one with gaps just where an object lacks the field or has null there.
pub proof fn gaps_are_marked(items: Seq<JsonModel>, name: Seq<char>)
    ensures
        is_nullable(items, name) <==> exists|i: int|
            0 <= i < items.len() && ((#[trigger] items[i]).get(name) is None || items[i].get(name)
                == Some(JsonModel::Null)),
{
    lemma_how_many_have(items, name);
    if is_nullable(items, name) {
        if frequency(items, name) < items.len() {
            let i = choose|i: int| 0 <= i < items.len() && (#[trigger] items[i]).get(name) is None;
            assert(items[i].get(name) is None);
        } else {
            let i = choose|i: int|
                0 <= i < items.len() && (#[trigger] items[i]).get(name) == Some(JsonModel::Null);
            assert(items[i].get(name) == Some(JsonModel::Null));
        }
    }
}

/// The object has something other than null in the field, of the type that is asked for.
pub open spec fn has_value(item: JsonModel, name: Seq<char>, tag: TypeTag) -> bool {
    item.get(name) matches Some(v) && match v {
        JsonModel::Null => false,
        JsonModel::Bool(_) => tag == TypeTag::Bool,
        JsonModel::Int(_) => tag == TypeTag::Int,
        JsonModel::Float(_) => tag == TypeTag::Float,
        JsonModel::Text(_) => tag == TypeTag::Text,
        _ => tag == TypeTag::Json,
    }
}

/// The object lacks the field or has null there.
pub open spec fn has_gap(item: JsonModel, name: Seq<char>) -> bool {
    item.get(name) is None || item.get(name) == Some(JsonModel::Null)
}

/// A column has a type where all its values have it, but for gaps. A column of gaps alone is one of
/// strings, and one of values of different types has the type that stands for any.
pub proof fn columns_have_types(items: Seq<JsonModel>, name: Seq<char>, tag: TypeTag)
    ensures
        (forall|i: int| 0 <= i < items.len() ==> has_gap(#[trigger] items[i], name)) ==> column_tag(
            items,
            name,
        ) == TypeTag::Text,
        (forall|i: int|
            0 <= i < items.len() ==> has_gap(#[trigger] items[i], name) || has_value(
                items[i],
                name,
                tag,
            )) && (exists|i: int| 0 <= i < items.len() && has_value(#[trigger] items[i], name, tag))
            ==> column_tag(items, name) == tag,
        (exists|i: int, j: int|
            0 <= i < items.len() && 0 <= j < items.len() && has_value(#[trigger] items[i], name, tag)
                && !has_gap(#[trigger] items[j], name) && !has_value(items[j], name, tag)) ==> column_tag(
            items,
            name,
        ) == TypeTag::Json,
{
    lemma_common_tag(items, name, tag);
}

proof fn lemma_common_tag(items: Seq<JsonModel>, name: Seq<char>, tag: TypeTag)
    ensures
        common_tag(items, name) is None <==> (forall|i: int|
            0 <= i < items.len() ==> has_gap(#[trigger] items[i], name)),
        (forall|i: int|
            0 <= i < items.len() ==> has_gap(#[trigger] items[i], name) || has_value(
                items[i],
                name,
                tag,
            )) && (exists|i: int| 0 <= i < items.len() && has_value(#[trigger] items[i], name, tag))
            ==> common_tag(items, name) == Some(tag),
        (exists|i: int, j: int|
            0 <= i < items.len() && 0 <= j < items.len() && has_value(#[trigger] items[i], name, tag)
                && !has_gap(#[trigger] items[j], name) && !has_value(items[j], name, tag)) ==> common_tag(
            items,
            name,
        ) == Some(TypeTag::Json),
        common_tag(items, name) == Some(tag) && tag != TypeTag::Json ==> (forall|i: int|
            0 <= i < items.len() ==> has_gap(#[trigger] items[i], name) || has_value(
                items[i],
                name,
                tag,
            )),
    decreases items.len(),
{
    if items.len() > 0 {
        let rest = items.drop_last();
        let n = items.len() - 1;
        let last = items.last();
        lemma_common_tag(rest, name, tag);
        assert(last == items[n]);
        assert forall|i: int| 0 <= i < n implies #[trigger] rest[i] == items[i] by {}
        if forall|i: int| 0 <= i < items.len() ==> has_gap(#[trigger] items[i], name) {
            assert(has_gap(items[n], name));
            assert forall|i: int| 0 <= i < rest.len() implies has_gap(#[trigger] rest[i], name) by {
                assert(has_gap(items[i], name));
            }
        }
        if common_tag(items, name) is None {
            assert forall|i: int| 0 <= i < items.len() implies has_gap(#[trigger] items[i], name) by {
                if i < n {
                    assert(has_gap(rest[i], name));
                }
            }
        }
        if !has_gap(last, name) {
            lemma_common_tag(rest, name, tag_of(last.get(name)->0));
        }
        if exists|i: int, j: int|
            0 <= i < items.len() && 0 <= j < items.len() && has_value(#[trigger] items[i], name, tag)
                && !has_gap(#[trigger] items[j], name) && !has_value(items[j], name, tag) {
            let (i, j) = choose|i: int, j: int|
                0 <= i < items.len() && 0 <= j < items.len() && has_value(#[trigger] items[i], name, tag)
                    && !has_gap(#[trigger] items[j], name) && !has_value(items[j], name, tag);
            if i < n && j < n {
                assert(has_value(rest[i], name, tag) && !has_gap(rest[j], name) && !has_value(
                    rest[j],
                    name,
                    tag,
                ));
            } else if i < n {
                assert(has_value(rest[i], name, tag));
            } else {
                assert(!has_gap(rest[j], name) && !has_value(rest[j], name, tag));
            }
        }
        if (forall|i: int|
            0 <= i < items.len() ==> has_gap(#[trigger] items[i], name) || has_value(
                items[i],
                name,
                tag,
            )) && (exists|i: int| 0 <= i < items.len() && has_value(#[trigger] items[i], name, tag)) {
            assert forall|i: int| 0 <= i < rest.len() implies has_gap(#[trigger] rest[i], name)
                || has_value(rest[i], name, tag) by {
                assert(has_gap(items[i], name) || has_value(items[i], name, tag));
            }
            assert(has_gap(items[n], name) || has_value(items[n], name, tag));
            let i = choose|i: int| 0 <= i < items.len() && has_value(#[trigger] items[i], name, tag);
            if i < n {
                assert(has_value(rest[i], name, tag));
            } else if exists|k: int| 0 <= k < rest.len() && has_value(#[trigger] rest[k], name, tag) {
                assert(common_tag(rest, name) == Some(tag));
            } else {
                assert forall|k: int| 0 <= k < rest.len() implies has_gap(#[trigger] rest[k], name) by {
                    assert(!has_value(rest[k], name, tag));
                }
            }
        }
    }
}

/// A string is written between quotes just where it has a comma, a quote or a break, is empty, or would
/// read as another value; any other scalar is written as in JSON, and a field that is not there as
/// nothing.
pub proof fn cells_are_plain_where_they_can_be(s: Seq<char>, n: int)
    ensures
        ({
            let special = s.contains(',') || s.contains('"') || s.contains('\n') || s.contains('\r');
            let other = s.len() == 0 || s == "null"@ || s == "true"@ || s == "false"@ || numeric_like(s);
            &&& !special && !other ==> csv_cell(JsonModel::Text(s)) == s
            &&& special || other ==> csv_cell(JsonModel::Text(s)) == seq!['"'] + doubled(s) + seq!['"']
        }),
        csv_cell(JsonModel::Null) == "null"@,
        csv_cell(JsonModel::Bool(true)) == "true"@,
        csv_cell(JsonModel::Bool(false)) == "false"@,
        csv_cell(JsonModel::Int(n)) == signed_dec(n),
        csv_cell(JsonModel::Float(s)) == s,
        optional_cell(None) == ""@,
{
}

/// A further object adds a row with a cell for each column, with commas between them.
pub proof fn further_objects_add_rows(items: Seq<JsonModel>, item: JsonModel, names: Seq<Seq<char>>, c: int)
    ensures
        csv_rows(items.push(item), names) == csv_rows(items, names) + join(
            csv_cells(item, names),
            ","@,
        ) + "\n"@,
        csv_cells(item, names).len() == names.len(),
        0 <= c < names.len() && item.get(names[c]) is Some ==> csv_cells(item, names)[c] == csv_cell(
            item.get(names[c])->0,
        ),
        0 <= c < names.len() && item.get(names[c]) is None ==> csv_cells(item, names)[c] == ""@,
{
    assert(items.push(item).drop_last() =~= items);
    assert(csv_rows(items, names) + (join(csv_cells(item, names), ","@) + "\n"@) =~= csv_rows(items, names)
        + join(csv_cells(item, names), ","@) + "\n"@);
}

/// The first line of a table has the number of the objects and the columns: each with its name, between
/// quotes where it could not be told from what follows it, its type, and a question mark where it has
/// gaps.
pub proof fn tables_declare_their_columns(items: Seq<JsonModel>, c: int)
    ensures
        csv_text(items) == "["@ + dec(items.len()) + "]{"@ + join(column_texts(items), ","@) + "}\n"@
            + csv_rows(items, columns(items)),
        column_texts(items).len() == columns(items).len(),
        0 <= c < columns(items).len() ==> ({
            let name = columns(items)[c];
            let tag = column_tag(items, name);
            let quote = name.len() == 0 || name.contains(',') || name.contains('"') || name.contains('\n')
                || name.contains('\r') || name.contains(':') || name.contains('}');
            let written = if quote {
                seq!['"'] + doubled(name) + seq!['"']
            } else {
                name
            };
            let kind = if tag == TypeTag::Bool {
                "bool"@
            } else if tag == TypeTag::Int {
                "int"@
            } else if tag == TypeTag::Float {
                "float"@
            } else if tag == TypeTag::Text {
                "string"@
            } else {
                "json"@
            };
            &&& is_nullable(items, name) ==> column_texts(items)[c] == written + ":"@ + kind + "?"@
            &&& !is_nullable(items, name) ==> column_texts(items)[c] == written + ":"@ + kind + ""@
        }),
{
}

} // verus!
