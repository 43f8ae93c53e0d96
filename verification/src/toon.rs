//! TOON: an indented text form of JSON in which arrays of alike objects become tables.
//!
//! [`encode`] writes it, [`decode`] reads it. The round trip is stated in [`crate::toon_round_trip`].
use crate::json::{
    field, field_models, find_field, float_plain, float_shortest, group_json_models, integer_text,
    json_text, model, models, parse_float, plain_float, set_field, with_field, write_json, Json,
    JsonModel, Number,
};
use crate::text::{
    byte_len, bytes_in, copy_str, debug_text, dec, decimal_usize, find_char, first_is, has_char,
    index_of, is_numeric_like, is_space, is_whitespace, join, join_texts,
    lemma_views_add, lemma_views_push, lines, numeric_like, parse_i64, parse_signed, parse_u64,
    parse_unsigned, parse_usize, same_text, signed_dec, slice_text, split_lines, str_debug,
    text_first_is, text_has_char, to_chars, trim, trim_start, trim_start_text, trim_text, views,
};
use vstd::prelude::*;

verus! {

broadcast use {group_json_models, lemma_views_push};

// ---------------------------------------------------------------------------
// Scalars
// ---------------------------------------------------------------------------

/// How one character is written between quotes.
pub open spec fn escape_char(c: char) -> Seq<char> {
    if c == '\\' {
        seq!['\\', '\\']
    } else if c == '"' {
        seq!['\\', '"']
    } else if c == '\n' {
        seq!['\\', 'n']
    } else if c == '\r' {
        seq!['\\', 'r']
    } else if c == '\t' {
        seq!['\\', 't']
    } else if c <= '\u{1f}' {
        seq!['\\', 'u', '0', '0', hex_digit(c as int / 16), hex_digit(c as int % 16)]
    } else {
        seq![c]
    }
}

pub open spec fn hex_digit(d: int) -> char {
    if d < 10 {
        (48 + d) as char
    } else {
        (87 + d) as char
    }
}

pub open spec fn escape(s: Seq<char>) -> Seq<char>
    decreases s.len(),
{
    if s.len() == 0 {
        seq![]
    } else {
        escape_char(s[0]) + escape(s.drop_first())
    }
}

pub open spec fn is_special(c: char) -> bool {
    c == ':' || c == '"' || c == '\\' || c == '[' || c == ']' || c == '{' || c == '}' || c == ','
}

/// A string that would read as something else, or not as one token, without quotes.
pub open spec fn needs_quotes(s: Seq<char>) -> bool {
    ||| s.len() == 0
    ||| is_space(s[0])
    ||| is_space(s.last())
    ||| s == "true"@
    ||| s == "false"@
    ||| s == "null"@
    ||| numeric_like(s)
    ||| exists|i: int| 0 <= i < s.len() && (is_special(#[trigger] s[i]) || s[i] <= '\u{1f}')
    ||| first_is(s, '-')
    ||| first_is(s, '#')
}

/// The string between quotes.
pub open spec fn quoted(s: Seq<char>) -> Seq<char> {
    seq!['"'] + escape(s) + seq!['"']
}

pub open spec fn string_text(s: Seq<char>) -> Seq<char> {
    if needs_quotes(s) {
        quoted(s)
    } else {
        s
    }
}

/// A name that reads as itself without quotes.
pub open spec fn plain_name(key: Seq<char>) -> bool {
    &&& key.len() > 0
    &&& !is_space(key[0])
    &&& !is_space(key.last())
    &&& key[0] != '-'
    &&& forall|i: int| 0 <= i < key.len() ==> !is_special(#[trigger] key[i]) && key[i] > '\u{1f}'
}

/// How the name of a field is written.
pub open spec fn name_text(key: Seq<char>) -> Seq<char> {
    if plain_name(key) {
        key
    } else {
        quoted(key)
    }
}

/// The canonical text of a double: its plain decimal form, and `0` for the zeros. A double whose plain
/// form would read neither as an integer nor as that double keeps its shortest text.
pub open spec fn float_text(t: Seq<char>) -> Seq<char> {
    match float_plain(t) {
        None => t,
        Some(p) => if p == "-0"@ {
            "0"@
        } else if numeric_like(p) && (parse_integer(p) is Some || float_shortest(p) == Some(t)) {
            p
        } else {
            t
        },
    }
}

/// How a value that is neither an array nor an object is written.
pub open spec fn scalar_text(m: JsonModel) -> Seq<char> {
    match m {
        JsonModel::Null => "null"@,
        JsonModel::Bool(b) => if b {
            "true"@
        } else {
            "false"@
        },
        JsonModel::Int(n) => signed_dec(n),
        JsonModel::Float(t) => float_text(t),
        JsonModel::Text(s) => string_text(s),
        _ => seq![],
    }
}

fn hex_char(d: u8) -> (c: char)
    requires
        d < 16,
    ensures
        c == hex_digit(d as int),
{
    if d < 10 {
        (48 + d) as char
    } else {
        (87 + d) as char
    }
}

fn push_escaped(out: &mut String, c: char)
    ensures
        final(out)@ == old(out)@ + escape_char(c),
{
    let ghost before = out@;
    if c == '\\' || c == '"' {
        out.push('\\');
        out.push(c);
    } else if c == '\n' {
        out.push('\\');
        out.push('n');
    } else if c == '\r' {
        out.push('\\');
        out.push('r');
    } else if c == '\t' {
        out.push('\\');
        out.push('t');
    } else if c <= '\u{1f}' {
        let code: u8 = c as u8;
        out.push('\\');
        out.push('u');
        out.push('0');
        out.push('0');
        out.push(hex_char(code / 16));
        out.push(hex_char(code % 16));
    } else {
        out.push(c);
    }
    assert(out@ =~= before + escape_char(c));
}

fn escape_text(s: &str) -> (out: String)
    ensures
        out@ == escape(s@),
{
    let v = to_chars(s);
    let mut out = String::new();
    let mut i: usize = 0;
    assert(s@.skip(0) =~= s@);
    assert(out@ + escape(s@) =~= escape(s@));
    while i < v.len()
        invariant
            i <= v@.len(),
            v@ == s@,
            out@ + escape(s@.skip(i as int)) == escape(s@),
        decreases v.len() - i,
    {
        let ghost rest = s@.skip(i as int);
        let ghost before = out@;
        push_escaped(&mut out, v[i]);
        assert(rest.drop_first() =~= s@.skip(i + 1));
        assert(out@ + escape(s@.skip(i + 1)) =~= before + escape(rest));
        i = i + 1;
    }
    assert(escape(s@.skip(i as int)) =~= Seq::<char>::empty());
    assert(out@ =~= escape(s@));
    out
}

/// Whether no character would read as part of the grammar.
fn is_plain(v: &Vec<char>) -> (b: bool)
    ensures
        b == (forall|i: int| 0 <= i < v@.len() ==> !is_special(#[trigger] v@[i]) && v@[i] > '\u{1f}'),
{
    let mut i: usize = 0;
    while i < v.len()
        invariant
            i <= v@.len(),
            forall|j: int| 0 <= j < i ==> !is_special(#[trigger] v@[j]) && v@[j] > '\u{1f}',
        decreases v.len() - i,
    {
        let c = v[i];
        if c == ':' || c == '"' || c == '\\' || c == '[' || c == ']' || c == '{' || c == '}' || c == ','
            || c <= '\u{1f}' {
            assert(is_special(v@[i as int]) || v@[i as int] <= '\u{1f}');
            return false;
        }
        i = i + 1;
    }
    true
}

fn needs_quoting(s: &str) -> (b: bool)
    ensures
        b == needs_quotes(s@),
{
    let v = to_chars(s);
    if v.len() == 0 {
        return true;
    }
    let first = v[0];
    let last = v[v.len() - 1];
    if is_whitespace(first) || is_whitespace(last) || first == '-' || first == '#' {
        return true;
    }
    if same_text(s, "true") || same_text(s, "false") || same_text(s, "null") {
        return true;
    }
    if is_numeric_like(s) {
        return true;
    }
    !is_plain(&v)
}

fn quoted_text(s: &str) -> (out: String)
    ensures
        out@ == quoted(s@),
{
    let mut out = String::new();
    out.push('"');
    let inner = escape_text(s);
    out.append(inner.as_str());
    out.push('"');
    assert(out@ =~= quoted(s@));
    out
}

fn encode_string(s: &str) -> (out: String)
    ensures
        out@ == string_text(s@),
{
    if needs_quoting(s) {
        quoted_text(s)
    } else {
        copy_str(s)
    }
}

fn encode_name(key: &str) -> (out: String)
    ensures
        out@ == name_text(key@),
{
    let v = to_chars(key);
    if v.len() > 0 && !is_whitespace(v[0]) && !is_whitespace(v[v.len() - 1]) && v[0] != '-' && is_plain(
        &v,
    ) {
        copy_str(key)
    } else {
        quoted_text(key)
    }
}

/// Whether a text reads as the double with the shortest text `t`.
fn reads_as_float(text: &str, t: &str) -> (b: bool)
    ensures
        b == (float_shortest(text@) == Some(t@)),
{
    match parse_float(text) {
        Some(f) => same_text(f.as_str(), t),
        None => false,
    }
}

fn format_float(t: &str) -> (out: String)
    ensures
        out@ == float_text(t@),
{
    match plain_float(t) {
        None => copy_str(t),
        Some(p) => {
            if same_text(p.as_str(), "-0") {
                return copy_str("0");
            }
            if is_numeric_like(p.as_str()) && (parse_integer_token(p.as_str()).is_some()
                || reads_as_float(p.as_str(), t)) {
                p
            } else {
                copy_str(t)
            }
        },
    }
}

fn format_number(n: &Number) -> (out: String)
    ensures
        out@ == scalar_text(crate::json::number_model(*n)),
{
    match n {
        Number::Float(t) => format_float(t.as_str()),
        _ => integer_text(n),
    }
}

pub fn encode_scalar(value: &Json) -> (out: String)
    requires
        value@.is_scalar(),
    ensures
        out@ == scalar_text(value@),
{
    match value {
        Json::Null => copy_str("null"),
        Json::Bool(b) => if *b {
            copy_str("true")
        } else {
            copy_str("false")
        },
        Json::Number(n) => format_number(n),
        Json::Text(s) => encode_string(s.as_str()),
        _ => String::new(),
    }
}

// ---------------------------------------------------------------------------
// Encoding
// ---------------------------------------------------------------------------

/// The padding one level further in.
pub open spec fn deeper(pad: Seq<char>) -> Seq<char> {
    pad + "  "@
}

pub open spec fn all_scalar(items: Seq<JsonModel>) -> bool {
    forall|i: int| 0 <= i < items.len() ==> (#[trigger] items[i]).is_scalar()
}

/// The item has just the fields of `first`, and each of them is a scalar.
pub open spec fn same_columns(first: Seq<(Seq<char>, JsonModel)>, item: JsonModel) -> bool {
    item matches JsonModel::Object(fs) && fs.len() == first.len() && forall|k: int|
        0 <= k < first.len() ==> has_scalar(fs, (#[trigger] first[k]).0)
}

pub open spec fn has_scalar(fs: Seq<(Seq<char>, JsonModel)>, key: Seq<char>) -> bool {
    field(fs, key) matches Some(v) && v.is_scalar()
}

/// Two or more objects that have the same fields, all scalars.
pub open spec fn is_table(items: Seq<JsonModel>) -> bool {
    &&& items.len() >= 2
    &&& items[0] is Object
    &&& forall|i: int|
        0 <= i < items.len() ==> same_columns(items[0]->Object_0, #[trigger] items[i])
}

pub open spec fn names(fs: Seq<(Seq<char>, JsonModel)>) -> Seq<Seq<char>> {
    Seq::new(fs.len(), |i: int| fs[i].0)
}

pub open spec fn or_null(v: Option<JsonModel>) -> JsonModel {
    match v {
        Some(m) => m,
        None => JsonModel::Null,
    }
}

/// The cells of one table row, in the order of the columns.
pub open spec fn row_cells(columns: Seq<Seq<char>>, item: JsonModel) -> Seq<Seq<char>> {
    Seq::new(columns.len(), |i: int| scalar_text(or_null(item.get(columns[i]))))
}

pub open spec fn scalar_texts(items: Seq<JsonModel>) -> Seq<Seq<char>> {
    Seq::new(items.len(), |i: int| scalar_text(items[i]))
}

pub open spec fn name_texts(names: Seq<Seq<char>>) -> Seq<Seq<char>> {
    Seq::new(names.len(), |i: int| name_text(names[i]))
}

/// What follows the length in the header of an array.
pub open spec fn array_suffix(items: Seq<JsonModel>) -> Seq<char> {
    if is_table(items) {
        "{"@ + join(name_texts(names(items[0]->Object_0)), ","@) + "}:"@
    } else if all_scalar(items) {
        ": "@ + join(scalar_texts(items), ","@)
    } else {
        ":"@
    }
}

pub open spec fn array_header(pad: Seq<char>, prefix: Seq<char>, items: Seq<JsonModel>) -> Seq<char> {
    pad + prefix + "["@ + dec(items.len()) + "]"@ + array_suffix(items)
}

pub open spec fn table_rows(
    pad: Seq<char>,
    columns: Seq<Seq<char>>,
    items: Seq<JsonModel>,
) -> Seq<Seq<char>> {
    Seq::new(items.len(), |i: int| deeper(pad) + join(row_cells(columns, items[i]), ","@))
}

/// The lines of an array that is not empty.
pub open spec fn array_lines(
    items: Seq<JsonModel>,
    pad: Seq<char>,
    prefix: Seq<char>,
) -> Seq<Seq<char>>
    decreases items, 1int,
{
    seq![array_header(pad, prefix, items)] + if is_table(items) {
        table_rows(pad, names(items[0]->Object_0), items)
    } else if all_scalar(items) {
        seq![]
    } else {
        list_lines(items, deeper(pad))
    }
}

pub open spec fn list_lines(items: Seq<JsonModel>, pad: Seq<char>) -> Seq<Seq<char>>
    decreases items, 0int,
{
    if items.len() == 0 {
        seq![]
    } else {
        item_lines(items[0], pad) + list_lines(items.drop_first(), pad)
    }
}

/// The lines of an item of a list. The first field of an object and the header of an array stand behind
/// the hyphen.
pub open spec fn item_lines(item: JsonModel, pad: Seq<char>) -> Seq<Seq<char>>
    decreases item, 0int,
{
    match item {
        JsonModel::Object(fs) => if fs.len() == 0 {
            seq![pad + "-"@]
        } else {
            behind_hyphen(field_lines(fs, deeper(pad)), pad)
        },
        JsonModel::Array(items) => if items.len() == 0 {
            seq![pad + "- []"@]
        } else {
            behind_hyphen(array_lines(items, pad, ""@), pad)
        },
        _ => seq![pad + "- "@ + scalar_text(item)],
    }
}

/// The lines with the first one moved behind a hyphen.
pub open spec fn behind_hyphen(ls: Seq<Seq<char>>, pad: Seq<char>) -> Seq<Seq<char>> {
    seq![pad + "- "@ + trim_start(ls[0])] + ls.drop_first()
}

pub open spec fn field_lines(fs: Seq<(Seq<char>, JsonModel)>, pad: Seq<char>) -> Seq<Seq<char>>
    decreases fs, 0int,
{
    if fs.len() == 0 {
        seq![]
    } else {
        one_field_lines(fs[0].0, fs[0].1, pad) + field_lines(fs.drop_first(), pad)
    }
}

pub open spec fn one_field_lines(key: Seq<char>, value: JsonModel, pad: Seq<char>) -> Seq<Seq<char>>
    decreases value, 0int,
{
    match value {
        JsonModel::Object(nested) => seq![pad + name_text(key) + ":"@] + field_lines(nested, deeper(pad)),
        JsonModel::Array(items) => if items.len() == 0 {
            seq![pad + name_text(key) + ": []"@]
        } else {
            array_lines(items, pad, name_text(key))
        },
        _ => seq![pad + name_text(key) + ": "@ + scalar_text(value)],
    }
}

/// The TOON text of a value.
pub open spec fn toon_text(value: JsonModel) -> Seq<char> {
    match value {
        JsonModel::Array(items) => if items.len() == 0 {
            "[]"@
        } else {
            join(array_lines(items, ""@, ""@), "\n"@)
        },
        JsonModel::Object(fs) => join(field_lines(fs, ""@), "\n"@),
        _ => scalar_text(value),
    }
}

fn deeper_text(pad: &str) -> (r: String)
    ensures
        r@ == deeper(pad@),
{
    let mut r = copy_str(pad);
    r.append("  ");
    r
}

fn append_all(out: &mut Vec<String>, more: Vec<String>)
    ensures
        views(final(out)@) == views(old(out)@) + views(more@),
{
    let mut more = more;
    let ghost a = out@;
    let ghost b = more@;
    out.append(&mut more);
    proof {
        lemma_views_add(a, b);
    }
}

fn has_scalar_field(fields: &Vec<(String, Json)>, key: &str) -> (b: bool)
    ensures
        b == has_scalar(field_models(fields@), key@),
{
    match find_field(fields, key) {
        Some(v) => v.is_scalar(),
        None => false,
    }
}

fn has_columns(first: &Vec<(String, Json)>, item: &Json) -> (b: bool)
    ensures
        b == same_columns(field_models(first@), item@),
{
    match item {
        Json::Object(fields) => {
            if fields.len() != first.len() {
                return false;
            }
            let mut k: usize = 0;
            let ghost fm = field_models(first@);
            let ghost im = field_models(fields@);
            while k < first.len()
                invariant
                    k <= first@.len(),
                    fm == field_models(first@),
                    im == field_models(fields@),
                    item@ == JsonModel::Object(im),
                    forall|j: int| 0 <= j < k ==> has_scalar(im, (#[trigger] fm[j]).0),
                decreases first.len() - k,
            {
                assert(fm[k as int].0 == first@[k as int].0@);
                if !has_scalar_field(fields, first[k].0.as_str()) {
                    return false;
                }
                k = k + 1;
            }
            true
        },
        _ => false,
    }
}

fn is_tabular(items: &Vec<Json>) -> (b: bool)
    ensures
        b == is_table(models(items@)),
{
    if items.len() < 2 {
        return false;
    }
    let ghost ms = models(items@);
    assert(ms[0] == model(items@[0]));
    match &items[0] {
        Json::Object(first) => {
            assert(ms[0]->Object_0 == field_models(first@));
            let mut i: usize = 0;
            while i < items.len()
                invariant
                    i <= items@.len(),
                    ms == models(items@),
                    forall|j: int|
                        0 <= j < i ==> same_columns(field_models(first@), #[trigger] ms[j]),
                    ms[0] == JsonModel::Object(field_models(first@)),
                decreases items.len() - i,
            {
                assert(ms[i as int] == model(items@[i as int]));
                if !has_columns(first, &items[i]) {
                    return false;
                }
                i = i + 1;
            }
            true
        },
        _ => false,
    }
}

fn are_scalars(items: &Vec<Json>) -> (b: bool)
    ensures
        b == all_scalar(models(items@)),
{
    let ghost ms = models(items@);
    let mut i: usize = 0;
    while i < items.len()
        invariant
            i <= items@.len(),
            ms == models(items@),
            forall|j: int| 0 <= j < i ==> (#[trigger] ms[j]).is_scalar(),
        decreases items.len() - i,
    {
        assert(ms[i as int] == model(items@[i as int]));
        if !items[i].is_scalar() {
            return false;
        }
        i = i + 1;
    }
    true
}

fn row_text(columns: &Vec<String>, item: &Json) -> (s: String)
    requires
        forall|k: int|
            0 <= k < columns@.len() ==> or_null(item@.get(#[trigger] views(columns@)[k])).is_scalar(),
    ensures
        s@ == join(row_cells(views(columns@), item@), ","@),
{
    let ghost cs = views(columns@);
    let mut cells: Vec<String> = Vec::new();
    let mut k: usize = 0;
    while k < columns.len()
        invariant
            k <= columns@.len(),
            cs == views(columns@),
            forall|k: int| 0 <= k < cs.len() ==> or_null(item@.get(#[trigger] cs[k])).is_scalar(),
            cells@.len() == k,
            forall|j: int| 0 <= j < k ==> (#[trigger] cells@[j])@ == row_cells(cs, item@)[j],
        decreases columns.len() - k,
    {
        assert(cs[k as int] == columns@[k as int]@);
        let cell = match item.get(columns[k].as_str()) {
            Some(v) => encode_scalar(v),
            None => copy_str("null"),
        };
        cells.push(cell);
        k = k + 1;
    }
    assert(views(cells@) =~= row_cells(cs, item@));
    join_texts(&cells, ",")
}

fn field_names(fields: &Vec<(String, Json)>) -> (v: Vec<String>)
    ensures
        views(v@) == names(field_models(fields@)),
{
    let mut v: Vec<String> = Vec::new();
    let mut i: usize = 0;
    while i < fields.len()
        invariant
            i <= fields@.len(),
            v@.len() == i,
            forall|j: int| 0 <= j < i ==> (#[trigger] v@[j])@ == fields@[j].0@,
        decreases fields.len() - i,
    {
        v.push(fields[i].0.clone());
        i = i + 1;
    }
    assert(views(v@) =~= names(field_models(fields@)));
    v
}

fn encode_names(names: &Vec<String>) -> (v: Vec<String>)
    ensures
        views(v@) == name_texts(views(names@)),
{
    let mut v: Vec<String> = Vec::new();
    let mut i: usize = 0;
    while i < names.len()
        invariant
            i <= names@.len(),
            v@.len() == i,
            forall|j: int| 0 <= j < i ==> (#[trigger] v@[j])@ == name_text(names@[j]@),
        decreases names.len() - i,
    {
        v.push(encode_name(names[i].as_str()));
        i = i + 1;
    }
    assert(views(v@) =~= name_texts(views(names@)));
    v
}

fn header_start(pad: &str, prefix: &str, n: usize) -> (s: String)
    ensures
        s@ == pad@ + prefix@ + "["@ + dec(n as nat) + "]"@,
{
    let mut s = copy_str(pad);
    s.append(prefix);
    s.append("[");
    let count = decimal_usize(n);
    s.append(count.as_str());
    s.append("]");
    s
}

fn encode_table(items: &Vec<Json>, pad: &str, prefix: &str) -> (out: Vec<String>)
    requires
        is_table(models(items@)),
    ensures
        views(out@) == array_lines(models(items@), pad@, prefix@),
{
    let ghost ms = models(items@);
    let ghost cols = names(ms[0]->Object_0);
    let mut out: Vec<String> = Vec::new();
    assert(ms[0] == model(items@[0]));
    match &items[0] {
        Json::Object(first) => {
            let columns = field_names(first);
            let mut header = header_start(pad, prefix, items.len());
            let shown = encode_names(&columns);
            let joined = join_texts(&shown, ",");
            let ghost start = header@;
            header.append("{");
            header.append(joined.as_str());
            header.append("}:");
            assert(header@ =~= start + array_suffix(ms));
            assert(header@ =~= array_header(pad@, prefix@, ms));
            out.push(header);
            let row_pad = deeper_text(pad);
            let mut i: usize = 0;
            while i < items.len()
                invariant
                    i <= items@.len(),
                    is_table(ms),
                    ms == models(items@),
                    ms[0] == JsonModel::Object(field_models(first@)),
                    cols == names(field_models(first@)),
                    cols == views(columns@),
                    row_pad@ == deeper(pad@),
                    out@.len() == i + 1,
                    out@[0]@ == array_header(pad@, prefix@, ms),
                    forall|j: int|
                        0 <= j < i ==> (#[trigger] out@[j + 1])@ == table_rows(pad@, cols, ms)[j],
                decreases items.len() - i,
            {
                assert(ms[i as int] == model(items@[i as int]));
                assert(same_columns(ms[0]->Object_0, ms[i as int]));
                assert forall|k: int| 0 <= k < columns@.len() implies or_null(
                    ms[i as int].get(#[trigger] views(columns@)[k]),
                ).is_scalar() by {
                    assert(has_scalar(ms[i as int]->Object_0, field_models(first@)[k].0));
                }
                let mut line = row_pad.clone();
                let row = row_text(&columns, &items[i]);
                line.append(row.as_str());
                let ghost before = out@;
                out.push(line);
                assert forall|j: int| 0 <= j < i + 1 implies (#[trigger] out@[j + 1])@ == table_rows(
                    pad@,
                    cols,
                    ms,
                )[j] by {
                    if j < i {
                        assert(out@[j + 1] == before[j + 1]);
                    }
                }
                i = i + 1;
            }
        },
        _ => {},
    }
    let ghost rows = table_rows(pad@, cols, ms);
    assert forall|j: int| 0 <= j < views(out@).len() implies #[trigger] views(out@)[j] == (seq![
        array_header(pad@, prefix@, ms),
    ] + rows)[j] by {
        if j > 0 {
            assert(out@[(j - 1) + 1]@ == rows[j - 1]);
        }
    }
    assert(views(out@) =~= array_lines(ms, pad@, prefix@));
    out
}

fn encode_inline(items: &Vec<Json>, pad: &str, prefix: &str) -> (out: Vec<String>)
    requires
        !is_table(models(items@)),
        all_scalar(models(items@)),
    ensures
        views(out@) == array_lines(models(items@), pad@, prefix@),
{
    let ghost ms = models(items@);
    let mut cells: Vec<String> = Vec::new();
    let mut i: usize = 0;
    while i < items.len()
        invariant
            i <= items@.len(),
            all_scalar(ms),
            ms == models(items@),
            cells@.len() == i,
            forall|j: int| 0 <= j < i ==> (#[trigger] cells@[j])@ == scalar_texts(ms)[j],
        decreases items.len() - i,
    {
        assert(ms[i as int] == model(items@[i as int]));
        cells.push(encode_scalar(&items[i]));
        i = i + 1;
    }
    assert(views(cells@) =~= scalar_texts(ms));
    let mut header = header_start(pad, prefix, items.len());
    let ghost start = header@;
    header.append(": ");
    let joined = join_texts(&cells, ",");
    header.append(joined.as_str());
    assert(header@ =~= start + array_suffix(ms));
    assert(header@ =~= array_header(pad@, prefix@, ms));
    let mut out: Vec<String> = Vec::new();
    out.push(header);
    assert(views(out@) =~= array_lines(ms, pad@, prefix@));
    out
}

fn encode_array(items: &Vec<Json>, pad: &str, prefix: &str) -> (out: Vec<String>)
    ensures
        views(out@) == array_lines(models(items@), pad@, prefix@),
    decreases *items, 1int,
{
    if is_tabular(items) {
        return encode_table(items, pad, prefix);
    }
    if are_scalars(items) {
        return encode_inline(items, pad, prefix);
    }
    let ghost ms = models(items@);
    let mut header = header_start(pad, prefix, items.len());
    header.append(":");
    assert(header@ =~= array_header(pad@, prefix@, ms));
    let mut out: Vec<String> = Vec::new();
    out.push(header);
    let item_pad = deeper_text(pad);
    let ghost head = views(out@);
    assert(head =~= seq![array_header(pad@, prefix@, ms)]);
    let mut i: usize = 0;
    assert(ms.skip(0) =~= ms);
    while i < items.len()
        invariant
            i <= items@.len(),
            ms == models(items@),
            !is_table(ms),
            !all_scalar(ms),
            item_pad@ == deeper(pad@),
            views(out@) + list_lines(ms.skip(i as int), item_pad@) == head + list_lines(ms, item_pad@),
        decreases items.len() - i,
    {
        let ghost rest = ms.skip(i as int);
        let ghost before = views(out@);
        assert(rest[0] == ms[i as int]);
        assert(ms[i as int] == model(items@[i as int]));
        assert(decreases_to!(*items => items@[i as int]));
        let more = encode_list_item(&items[i], item_pad.as_str());
        append_all(&mut out, more);
        assert(rest.drop_first() =~= ms.skip(i + 1));
        assert(views(out@) + list_lines(ms.skip(i + 1), item_pad@) =~= before + list_lines(rest, item_pad@));
        i = i + 1;
    }
    assert(list_lines(ms.skip(i as int), item_pad@) =~= Seq::<Seq<char>>::empty());
    assert(views(out@) =~= array_lines(ms, pad@, prefix@));
    out
}

fn put_behind_hyphen(sub: Vec<String>, pad: &str) -> (out: Vec<String>)
    requires
        sub@.len() > 0,
    ensures
        views(out@) == behind_hyphen(views(sub@), pad@),
{
    let mut line = copy_str(pad);
    line.append("- ");
    let first = trim_start_text(sub[0].as_str());
    line.append(first.as_str());
    let mut out: Vec<String> = Vec::new();
    out.push(line);
    let mut i: usize = 1;
    let ghost all = behind_hyphen(views(sub@), pad@);
    assert(all[0] == out@[0]@);
    while i < sub.len()
        invariant
            1 <= i <= sub@.len(),
            out@.len() == i,
            all == behind_hyphen(views(sub@), pad@),
            forall|j: int| 0 <= j < i ==> (#[trigger] out@[j])@ == all[j],
        decreases sub.len() - i,
    {
        out.push(sub[i].clone());
        assert(all[i as int] == views(sub@)[i as int]);
        i = i + 1;
    }
    assert(views(out@) =~= all);
    out
}

fn encode_list_item(item: &Json, pad: &str) -> (out: Vec<String>)
    ensures
        views(out@) == item_lines(item@, pad@),
    decreases *item, 2int,
{
    let mut line = copy_str(pad);
    let mut out: Vec<String> = Vec::new();
    match item {
        Json::Object(fields) => {
            if fields.len() == 0 {
                line.append("-");
                out.push(line);
                assert(views(out@) =~= item_lines(item@, pad@));
                return out;
            }
            let inner = deeper_text(pad);
            assert(decreases_to!(*item => item->Object_0));
            let sub = encode_object_fields(fields, inner.as_str());
            proof {
                lemma_some_lines(field_models(fields@), inner@);
            }
            put_behind_hyphen(sub, pad)
        },
        Json::Array(items) => {
            if items.len() == 0 {
                line.append("- []");
                out.push(line);
                assert(views(out@) =~= item_lines(item@, pad@));
                return out;
            }
            assert(decreases_to!(*item => item->Array_0));
            let sub = encode_array(items, pad, "");
            assert(views(sub@).len() > 0);
            put_behind_hyphen(sub, pad)
        },
        _ => {
            line.append("- ");
            let cell = encode_scalar(item);
            line.append(cell.as_str());
            out.push(line);
            assert(views(out@) =~= item_lines(item@, pad@));
            out
        },
    }
}

/// Fields take at least one line.
proof fn lemma_some_lines(fs: Seq<(Seq<char>, JsonModel)>, pad: Seq<char>)
    requires
        fs.len() > 0,
    ensures
        field_lines(fs, pad).len() > 0,
{
    assert(one_field_lines(fs[0].0, fs[0].1, pad).len() > 0);
}

fn encode_one_field(key: &str, value: &Json, pad: &str) -> (out: Vec<String>)
    ensures
        views(out@) == one_field_lines(key@, value@, pad@),
    decreases *value, 1int,
{
    let name = encode_name(key);
    let mut line = copy_str(pad);
    line.append(name.as_str());
    let mut out: Vec<String> = Vec::new();
    match value {
        Json::Object(nested) => {
            line.append(":");
            out.push(line);
            let inner = deeper_text(pad);
            assert(decreases_to!(*value => value->Object_0));
            let more = encode_object_fields(nested, inner.as_str());
            append_all(&mut out, more);
            assert(views(out@) =~= one_field_lines(key@, value@, pad@));
            out
        },
        Json::Array(items) => {
            if items.len() == 0 {
                line.append(": []");
                out.push(line);
                assert(views(out@) =~= one_field_lines(key@, value@, pad@));
                return out;
            }
            assert(decreases_to!(*value => value->Array_0));
            encode_array(items, pad, name.as_str())
        },
        _ => {
            line.append(": ");
            let cell = encode_scalar(value);
            line.append(cell.as_str());
            out.push(line);
            assert(views(out@) =~= one_field_lines(key@, value@, pad@));
            out
        },
    }
}

fn encode_object_fields(fields: &Vec<(String, Json)>, pad: &str) -> (out: Vec<String>)
    ensures
        views(out@) == field_lines(field_models(fields@), pad@),
    decreases *fields, 0int,
{
    let ghost fs = field_models(fields@);
    let mut out: Vec<String> = Vec::new();
    let mut i: usize = 0;
    let ghost all = field_lines(fs, pad@);
    assert(fs.skip(0) =~= fs);
    assert(views(out@) + all =~= all);
    while i < fields.len()
        invariant
            i <= fields@.len(),
            fs == field_models(fields@),
            views(out@) + field_lines(fs.skip(i as int), pad@) == all,
        decreases fields.len() - i,
    {
        let ghost rest = fs.skip(i as int);
        let ghost before = views(out@);
        assert(rest[0] == fs[i as int]);
        assert(fs[i as int] == (fields@[i as int].0@, model(fields@[i as int].1)));
        assert(decreases_to!(*fields => fields@[i as int]));
        let more = encode_one_field(fields[i].0.as_str(), &fields[i].1, pad);
        append_all(&mut out, more);
        assert(rest.drop_first() =~= fs.skip(i + 1));
        assert(views(out@) + field_lines(fs.skip(i + 1), pad@) =~= before + field_lines(rest, pad@));
        i = i + 1;
    }
    assert(field_lines(fs.skip(i as int), pad@) =~= Seq::<Seq<char>>::empty());
    assert(views(out@) =~= all);
    out
}

/// The TOON form of a value.
pub fn encode(value: &Json) -> (out: String)
    ensures
        out@ == toon_text(value@),
{
    match value {
        Json::Array(items) => {
            if items.len() == 0 {
                return copy_str("[]");
            }
            let ls = encode_array(items, "", "");
            join_texts(&ls, "\n")
        },
        Json::Object(fields) => {
            let ls = encode_object_fields(fields, "");
            join_texts(&ls, "\n")
        },
        _ => encode_scalar(value),
    }
}

/// The TOON form of a value where it takes fewer bytes than its compact JSON.
pub fn encode_if_smaller(value: &Json) -> (r: Option<String>)
    ensures
        r is Some <==> byte_len(toon_text(value@)) < byte_len(json_text(value@)),
        r matches Some(s) ==> s@ == toon_text(value@),
{
    let json = write_json(value);
    let toon = encode(value);
    if bytes_in(toon.as_str()) < bytes_in(json.as_str()) {
        Some(toon)
    } else {
        None
    }
}

// ---------------------------------------------------------------------------
// Tokens
// ---------------------------------------------------------------------------

/// `char::from_u32` gives the character with a code, and nothing for a number that is no code of a
/// character.
pub assume_specification[ char::from_u32 ](i: u32) -> (r: Option<char>)
    ensures
        r is Some <==> is_char_code(i as int),
        r matches Some(c) ==> c as int == i as int,
;

/// The codes of characters: all up to 10FFFF but the surrogates.
pub open spec fn is_char_code(n: int) -> bool {
    0 <= n <= 0xd7ff || 0xe000 <= n <= 0x10ffff
}

pub open spec fn is_hex(c: char) -> bool {
    '0' <= c <= '9' || 'a' <= c <= 'f' || 'A' <= c <= 'F'
}

pub open spec fn hex_digit_value(c: char) -> int {
    if c <= '9' {
        c as int - 48
    } else if c <= 'F' {
        c as int - 55
    } else {
        c as int - 87
    }
}

pub open spec fn all_hex(s: Seq<char>) -> bool {
    forall|i: int| 0 <= i < s.len() ==> is_hex(#[trigger] s[i])
}

pub open spec fn hex_value(s: Seq<char>) -> int
    decreases s.len(),
{
    if s.len() == 0 {
        0
    } else {
        16 * hex_value(s.drop_last()) + hex_digit_value(s.last())
    }
}

/// The number that `s` reads as in base sixteen, with an optional plus sign.
pub open spec fn parse_hex(s: Seq<char>) -> Option<int> {
    let body = if first_is(s, '+') {
        s.skip(1)
    } else {
        s
    };
    if body.len() > 0 && all_hex(body) {
        Some(hex_value(body))
    } else {
        None
    }
}

/// The character with the code that `hex` reads as, if there is one.
pub open spec fn unicode_char(hex: Seq<char>) -> Seq<char> {
    match parse_hex(hex) {
        Some(n) => if is_char_code(n) {
            seq![n as char]
        } else {
            seq![]
        },
        None => seq![],
    }
}

/// What the character behind a backslash stands for, but for `u`.
pub open spec fn unescape_char(c: char) -> char {
    if c == 'n' {
        '\n'
    } else if c == 'r' {
        '\r'
    } else if c == 't' {
        '\t'
    } else {
        c
    }
}

/// The string whose escaped form is `s`.
pub open spec fn unescape(s: Seq<char>) -> Seq<char>
    decreases s.len(),
{
    if s.len() == 0 {
        seq![]
    } else if s[0] != '\\' {
        seq![s[0]] + unescape(s.drop_first())
    } else if s.len() == 1 {
        seq![]
    } else if s[1] == 'u' {
        let k = if s.len() < 6 {
            s.len() as int
        } else {
            6
        };
        unicode_char(s.subrange(2, k)) + unescape(s.skip(k))
    } else {
        seq![unescape_char(s[1])] + unescape(s.skip(2))
    }
}

fn hex_digit_of(c: char) -> (d: Option<u32>)
    ensures
        d is Some <==> is_hex(c),
        d matches Some(n) ==> n == hex_digit_value(c) && n < 16,
{
    let code: u32 = c as u32;
    if '0' <= c && c <= '9' {
        Some(code - 48)
    } else if 'a' <= c && c <= 'f' {
        Some(code - 87)
    } else if 'A' <= c && c <= 'F' {
        Some(code - 55)
    } else {
        None
    }
}

/// The hexadecimal number in `v[lo..hi]`, of at most four characters.
fn parse_hex_code(v: &Vec<char>, lo: usize, hi: usize) -> (r: Option<u32>)
    requires
        lo <= hi <= v@.len(),
        hi - lo <= 4,
    ensures
        r is Some <==> parse_hex(v@.subrange(lo as int, hi as int)) is Some,
        r matches Some(n) ==> parse_hex(v@.subrange(lo as int, hi as int)) == Some(n as int),
{
    let ghost s = v@.subrange(lo as int, hi as int);
    let start: usize = if lo < hi && v[lo] == '+' {
        lo + 1
    } else {
        lo
    };
    let ghost body = v@.subrange(start as int, hi as int);
    assert(first_is(s, '+') ==> s.skip(1) =~= body);
    if start == hi {
        return None;
    }
    let mut n: u32 = 0;
    let mut i: usize = start;
    assert(body.take(0) =~= Seq::<char>::empty());
    while i < hi
        invariant
            lo <= start <= i <= hi <= v@.len(),
            hi - lo <= 4,
            s == v@.subrange(lo as int, hi as int),
            body == v@.subrange(start as int, hi as int),
            body == (if first_is(s, '+') {
                s.skip(1)
            } else {
                s
            }),
            all_hex(body.take(i - start)),
            n == hex_value(body.take(i - start)),
            i - start == 0 ==> n < 1,
            i - start == 1 ==> n < 16,
            i - start == 2 ==> n < 256,
            i - start == 3 ==> n < 4096,
        decreases hi - i,
    {
        let ghost part = body.take(i - start + 1);
        assert(part.drop_last() =~= body.take(i - start));
        assert(part.last() == v@[i as int]);
        match hex_digit_of(v[i]) {
            None => {
                assert(!is_hex(body[i - start]));
                return None;
            },
            Some(d) => {
                n = 16 * n + d;
            },
        }
        assert forall|j: int| 0 <= j < part.len() implies is_hex(#[trigger] part[j]) by {
            if j < part.len() - 1 {
                assert(part[j] == body.take(i - start)[j]);
            }
        }
        i = i + 1;
    }
    assert(body.take(hi - start) =~= body);
    Some(n)
}

fn unescape_text(s: &str) -> (out: String)
    ensures
        out@ == unescape(s@),
{
    let v = to_chars(s);
    let n = v.len();
    let mut out = String::new();
    let mut i: usize = 0;
    assert(s@.skip(0) =~= s@);
    assert(out@ + unescape(s@) =~= unescape(s@));
    while i < n
        invariant
            i <= n == v@.len(),
            v@ == s@,
            out@ + unescape(s@.skip(i as int)) == unescape(s@),
        decreases n - i,
    {
        let ghost rest = s@.skip(i as int);
        let ghost before = out@;
        let c = v[i];
        assert(rest[0] == c);
        if c != '\\' {
            out.push(c);
            assert(rest.drop_first() =~= s@.skip(i + 1));
            assert(out@ + unescape(s@.skip(i + 1)) =~= before + unescape(rest));
            i = i + 1;
        } else if n - i == 1 {
            assert(s@.skip(i + 1) =~= Seq::<char>::empty());
            assert(out@ + unescape(s@.skip(i + 1)) =~= before + unescape(rest));
            i = i + 1;
        } else {
            let d = v[i + 1];
            assert(rest[1] == d);
            if d == 'u' {
                let end: usize = if n - i < 6 {
                    n
                } else {
                    i + 6
                };
                assert(rest.subrange(2, end - i) =~= v@.subrange(i + 2, end as int));
                assert(rest.skip(end - i) =~= s@.skip(end as int));
                match parse_hex_code(&v, i + 2, end) {
                    Some(code) => {
                        match char::from_u32(code) {
                            Some(u) => {
                                out.push(u);
                            },
                            None => {},
                        }
                    },
                    None => {},
                }
                assert(out@ =~= before + unicode_char(v@.subrange(i + 2, end as int)));
                assert(out@ + unescape(s@.skip(end as int)) =~= before + unescape(rest));
                i = end;
            } else {
                let u = if d == 'n' {
                    '\n'
                } else if d == 'r' {
                    '\r'
                } else if d == 't' {
                    '\t'
                } else {
                    d
                };
                out.push(u);
                assert(rest.skip(2) =~= s@.skip(i + 2));
                assert(out@ + unescape(s@.skip(i + 2)) =~= before + unescape(rest));
                i = i + 2;
            }
        }
    }
    assert(unescape(s@.skip(i as int)) =~= Seq::<char>::empty());
    assert(out@ =~= unescape(s@));
    out
}

/// The pieces of `s` between the commas that do not stand between quotes, where `cell` was read
/// before and `quoted` says whether a quote is open.
pub open spec fn cells(s: Seq<char>, quoted: bool, cell: Seq<char>) -> Seq<Seq<char>>
    decreases s.len(),
{
    if s.len() == 0 {
        seq![cell]
    } else if s[0] == '"' {
        cells(s.drop_first(), !quoted, cell.push('"'))
    } else if s[0] == '\\' && quoted && s.len() > 1 {
        cells(s.skip(2), quoted, cell.push('\\').push(s[1]))
    } else if s[0] == ',' && !quoted {
        seq![cell] + cells(s.drop_first(), quoted, seq![])
    } else {
        cells(s.drop_first(), quoted, cell.push(s[0]))
    }
}

fn split_delimited(s: &str) -> (out: Vec<String>)
    ensures
        views(out@) == cells(s@, false, seq![]),
{
    let v = to_chars(s);
    let n = v.len();
    let mut out: Vec<String> = Vec::new();
    let mut cell = String::new();
    let mut quoted = false;
    let mut i: usize = 0;
    let ghost all = cells(s@, false, seq![]);
    assert(s@.skip(0) =~= s@);
    assert(cell@ =~= Seq::<char>::empty());
    assert(views(out@) + all =~= all);
    while i < n
        invariant
            i <= n == v@.len(),
            v@ == s@,
            views(out@) + cells(s@.skip(i as int), quoted, cell@) == all,
        decreases n - i,
    {
        let ghost rest = s@.skip(i as int);
        let c = v[i];
        assert(rest[0] == c);
        assert(rest.drop_first() =~= s@.skip(i + 1));
        if c == '"' {
            quoted = !quoted;
            cell.push(c);
            i = i + 1;
        } else if c == '\\' && quoted && n - i > 1 {
            assert(rest[1] == v@[i + 1]);
            assert(rest.skip(2) =~= s@.skip(i + 2));
            cell.push(c);
            cell.push(v[i + 1]);
            i = i + 2;
        } else if c == ',' && !quoted {
            let ghost before = views(out@);
            let ghost done = cell@;
            out.push(cell);
            cell = String::new();
            assert(cell@ =~= Seq::<char>::empty());
            assert(views(out@) + cells(s@.skip(i + 1), quoted, seq![]) =~= before + (seq![done] + cells(
                s@.skip(i + 1),
                quoted,
                seq![],
            )));
            i = i + 1;
        } else {
            cell.push(c);
            i = i + 1;
        }
    }
    assert(s@.skip(i as int).len() == 0);
    let ghost before = views(out@);
    let ghost done = cell@;
    out.push(cell);
    assert(views(out@) =~= before + seq![done]);
    out
}

/// What a token reads as: a quoted string, a word for a constant, a number, or else a plain string.
pub open spec fn parse_scalar(token: Seq<char>) -> JsonModel {
    let t = trim(token);
    if t.len() >= 2 && t[0] == '"' && t.last() == '"' {
        JsonModel::Text(unescape(t.subrange(1, t.len() - 1)))
    } else if t == "true"@ {
        JsonModel::Bool(true)
    } else if t == "false"@ {
        JsonModel::Bool(false)
    } else if t == "null"@ {
        JsonModel::Null
    } else if t == "[]"@ {
        JsonModel::Array(seq![])
    } else if numeric_like(t) {
        match parse_integer(t) {
            Some(n) => JsonModel::Int(n),
            None => match float_shortest(t) {
                Some(f) => JsonModel::Float(f),
                None => JsonModel::Text(t),
            },
        }
    } else {
        JsonModel::Text(t)
    }
}

/// The integer that a number without a point or an exponent reads as, in the range of `i64` or `u64`.
pub open spec fn parse_integer(t: Seq<char>) -> Option<int> {
    if has_char(t, '.') || has_char(t, 'e') || has_char(t, 'E') {
        None
    } else {
        match parse_signed(t) {
            Some(n) => Some(n),
            None => match parse_unsigned(t, u64::MAX as nat) {
                Some(n) => Some(n as int),
                None => None,
            },
        }
    }
}

fn parse_integer_token(t: &str) -> (r: Option<Number>)
    ensures
        r is Some <==> parse_integer(t@) is Some,
        r matches Some(n) ==> crate::json::number_model(n) == JsonModel::Int(parse_integer(t@)->0),
{
    if text_has_char(t, '.') || text_has_char(t, 'e') || text_has_char(t, 'E') {
        return None;
    }
    match parse_i64(t) {
        Some(n) => {
            if n >= 0 {
                Some(Number::PosInt(n as u64))
            } else {
                Some(Number::NegInt(n))
            }
        },
        None => match parse_u64(t) {
            Some(n) => Some(Number::PosInt(n)),
            None => None,
        },
    }
}

fn parse_scalar_token(token: &str) -> (j: Json)
    ensures
        j@ == parse_scalar(token@),
{
    let t = trim_text(token);
    let v = to_chars(t.as_str());
    if v.len() >= 2 && v[0] == '"' && v[v.len() - 1] == '"' {
        let inner = slice_text(&v, 1, v.len() - 1);
        return Json::Text(unescape_text(inner.as_str()));
    }
    if same_text(t.as_str(), "true") {
        return Json::Bool(true);
    }
    if same_text(t.as_str(), "false") {
        return Json::Bool(false);
    }
    if same_text(t.as_str(), "null") {
        return Json::Null;
    }
    if same_text(t.as_str(), "[]") {
        let none: Vec<Json> = Vec::new();
        assert(models(none@) =~= Seq::<JsonModel>::empty());
        return Json::Array(none);
    }
    if is_numeric_like(t.as_str()) {
        match parse_integer_token(t.as_str()) {
            Some(n) => {
                return Json::Number(n);
            },
            None => {},
        }
        match parse_float(t.as_str()) {
            Some(f) => {
                return Json::Number(Number::Float(f));
            },
            None => {},
        }
    }
    Json::Text(t)
}

// ---------------------------------------------------------------------------
// Names
// ---------------------------------------------------------------------------

/// The index behind the closing quote of a text that starts inside quotes, or its length.
pub open spec fn quote_end(s: Seq<char>) -> int
    decreases s.len(),
{
    if s.len() == 0 {
        0
    } else if s[0] == '"' {
        1
    } else if s[0] == '\\' && s.len() > 1 {
        2 + quote_end(s.skip(2))
    } else {
        1 + quote_end(s.drop_first())
    }
}

pub proof fn lemma_quote_end(s: Seq<char>)
    ensures
        0 <= quote_end(s) <= s.len(),
    decreases s.len(),
{
    if s.len() > 0 {
        if s[0] == '\\' && s.len() > 1 {
            lemma_quote_end(s.skip(2));
        } else if s[0] != '"' {
            lemma_quote_end(s.drop_first());
        }
    }
}

/// The length of the quoted string that a text starts with.
pub open spec fn quoted_len(s: Seq<char>) -> int {
    if first_is(s, '"') {
        1 + quote_end(s.drop_first())
    } else {
        0
    }
}

/// The index of the first `c` behind the quoted string that a text may start with, or its length.
pub open spec fn after_name(s: Seq<char>, c: char) -> int {
    quoted_len(s) + index_of(s.skip(quoted_len(s)), c)
}

/// The name that is written as `t`.
pub open spec fn read_name(t: Seq<char>) -> Seq<char> {
    if t.len() >= 2 && t[0] == '"' && t.last() == '"' {
        unescape(t.subrange(1, t.len() - 1))
    } else {
        t
    }
}

/// The index of the first closing brace outside quotes, or the length of the text.
pub open spec fn brace_at(s: Seq<char>) -> int
    decreases s.len(),
    via brace_at_decreases
{
    if s.len() == 0 || s[0] == '}' {
        0
    } else if s[0] == '"' {
        quoted_len(s) + brace_at(s.skip(quoted_len(s)))
    } else {
        1 + brace_at(s.drop_first())
    }
}

#[via_fn]
proof fn brace_at_decreases(s: Seq<char>) {
    if s.len() > 0 {
        lemma_quote_end(s.drop_first());
    }
}

/// The columns that stand between the braces of a table header.
pub open spec fn read_columns(inner: Seq<char>) -> Seq<Seq<char>> {
    if inner.len() == 0 {
        seq![]
    } else {
        read_names(cells(inner, false, seq![]))
    }
}

pub open spec fn read_names(parts: Seq<Seq<char>>) -> Seq<Seq<char>> {
    Seq::new(parts.len(), |i: int| read_name(parts[i]))
}

/// The length of the quoted string that `v` holds from `from` on.
fn quoted_end(v: &Vec<char>, from: usize) -> (k: usize)
    requires
        from <= v@.len(),
    ensures
        from <= k <= v@.len(),
        k == from + quoted_len(v@.skip(from as int)),
{
    let ghost s = v@.skip(from as int);
    if from == v.len() || v[from] != '"' {
        return from;
    }
    let mut i: usize = from + 1;
    assert(s.drop_first() =~= v@.skip(i as int));
    while i < v.len() && v[i] != '"'
        invariant
            from < i <= v@.len(),
            i + quote_end(v@.skip(i as int)) == from + quoted_len(s),
        decreases v.len() - i,
    {
        let ghost rest = v@.skip(i as int);
        assert(rest[0] == v@[i as int]);
        if v[i] == '\\' && v.len() - i > 1 {
            assert(rest.skip(2) =~= v@.skip(i + 2));
            i = i + 2;
        } else {
            assert(rest.drop_first() =~= v@.skip(i + 1));
            i = i + 1;
        }
    }
    if i < v.len() {
        assert(v@.skip(i as int)[0] == '"');
        i + 1
    } else {
        i
    }
}

fn find_after_name(v: &Vec<char>, c: char) -> (k: usize)
    ensures
        k == after_name(v@, c),
        k <= v@.len(),
        k < v@.len() ==> v@[k as int] == c,
{
    assert(v@.skip(0) =~= v@);
    let e = quoted_end(v, 0);
    find_char(v, c, e)
}

fn name_from(t: &str) -> (s: String)
    ensures
        s@ == read_name(t@),
{
    let v = to_chars(t);
    if v.len() >= 2 && v[0] == '"' && v[v.len() - 1] == '"' {
        let inner = slice_text(&v, 1, v.len() - 1);
        unescape_text(inner.as_str())
    } else {
        copy_str(t)
    }
}

fn find_brace(v: &Vec<char>) -> (k: usize)
    ensures
        k == brace_at(v@),
        k <= v@.len(),
{
    let mut i: usize = 0;
    assert(v@.skip(0) =~= v@);
    while i < v.len() && v[i] != '}'
        invariant
            i <= v@.len(),
            i + brace_at(v@.skip(i as int)) == brace_at(v@),
        decreases v.len() - i,
    {
        let ghost rest = v@.skip(i as int);
        assert(rest[0] == v@[i as int]);
        if v[i] == '"' {
            let e = quoted_end(v, i);
            proof {
                lemma_quote_end(rest.drop_first());
            }
            assert(rest.skip(quoted_len(rest)) =~= v@.skip(e as int));
            i = e;
        } else {
            assert(rest.drop_first() =~= v@.skip(i + 1));
            i = i + 1;
        }
    }
    i
}

fn parse_columns(inner: &str) -> (out: Vec<String>)
    ensures
        views(out@) == read_columns(inner@),
{
    let mut out: Vec<String> = Vec::new();
    let v = to_chars(inner);
    if v.len() > 0 {
        let parts = split_delimited(inner);
        let mut i: usize = 0;
        while i < parts.len()
            invariant
                i <= parts@.len(),
                out@.len() == i,
                forall|j: int| 0 <= j < i ==> (#[trigger] out@[j])@ == read_name(parts@[j]@),
            decreases parts.len() - i,
        {
            out.push(name_from(parts[i].as_str()));
            i = i + 1;
        }
        assert(views(out@) =~= read_names(views(parts@)));
    } else {
        assert(views(out@) =~= read_columns(inner@));
    }
    out
}

// ---------------------------------------------------------------------------
// Decoding
// ---------------------------------------------------------------------------

/// What is wrong with a text that is no TOON.
#[derive(Debug)]
pub struct DecodeError(pub String);

impl DecodeError {
    /// The error as a sentence.
    pub fn to_text(&self) -> (s: String)
        ensures
            s@ == "TOON decode error: "@ + self.0@,
    {
        let mut s = copy_str("TOON decode error: ");
        s.append(self.0.as_str());
        s
    }
}

pub open spec fn space_run(s: Seq<char>) -> int
    decreases s.len(),
{
    if s.len() == 0 || s[0] != ' ' {
        0
    } else {
        1 + space_run(s.drop_first())
    }
}

/// The level of a line: two spaces for each.
pub open spec fn line_level(line: Seq<char>) -> int {
    space_run(line) / 2
}

pub open spec fn no_space(s: Seq<char>) -> bool {
    forall|i: int| 0 <= i < s.len() ==> !is_space(#[trigger] s[i])
}

/// One object from the names and the cells of a row.
pub open spec fn row_object(
    names: Seq<Seq<char>>,
    row: Seq<Seq<char>>,
    map: Seq<(Seq<char>, JsonModel)>,
) -> Seq<(Seq<char>, JsonModel)>
    decreases names.len(),
{
    if names.len() == 0 || row.len() == 0 {
        map
    } else {
        row_object(
            names.drop_first(),
            row.drop_first(),
            with_field(map, names[0], parse_scalar(row[0])),
        )
    }
}

/// The `n` rows of a table from line `at` on.
pub open spec fn read_rows(
    lines: Seq<Seq<char>>,
    at: int,
    names: Seq<Seq<char>>,
    n: nat,
) -> Result<(Seq<JsonModel>, int), Seq<char>>
    decreases n,
{
    if n == 0 {
        Ok((seq![], at))
    } else if !(0 <= at < lines.len()) {
        Err("truncated tabular array"@)
    } else {
        let object = JsonModel::Object(row_object(names, cells(trim(lines[at]), false, seq![]), seq![]));
        match read_rows(lines, at + 1, names, (n - 1) as nat) {
            Ok((rest, next)) => Ok((seq![object] + rest, next)),
            Err(e) => Err(e),
        }
    }
}

pub open spec fn parse_all(tokens: Seq<Seq<char>>) -> Seq<JsonModel> {
    Seq::new(tokens.len(), |i: int| parse_scalar(tokens[i]))
}

/// An array by what follows the length in its header, which stands in line `at`; `items` is what reading
/// a list below that line gives.
pub open spec fn array_step(
    lines: Seq<Seq<char>>,
    at: int,
    after: Seq<char>,
    n: nat,
    items: Result<(Seq<JsonModel>, int), Seq<char>>,
) -> Result<(JsonModel, int), Seq<char>> {
    if first_is(after, '{') {
        let part = after.skip(1);
        let close = brace_at(part);
        if close >= part.len() {
            Err("missing '}' in tabular header"@)
        } else {
            as_array(read_rows(lines, at + 1, read_columns(part.take(close)), n))
        }
    } else if first_is(after, ':') {
        let inline = trim(after.skip(1));
        if inline.len() > 0 {
            Ok((JsonModel::Array(parse_all(cells(inline, false, seq![]))), at + 1))
        } else {
            as_array(items)
        }
    } else {
        Err("unrecognized array header suffix: "@ + str_debug(after))
    }
}

pub open spec fn as_array(items: Result<(Seq<JsonModel>, int), Seq<char>>) -> Result<
    (JsonModel, int),
    Seq<char>,
> {
    match items {
        Ok((v, next)) => Ok((JsonModel::Array(v), next)),
        Err(e) => Err(e),
    }
}

pub open spec fn as_object(
    fields: Result<(Seq<(Seq<char>, JsonModel)>, int), Seq<char>>,
) -> Result<(JsonModel, int), Seq<char>> {
    match fields {
        Ok((v, next)) => Ok((JsonModel::Object(v), next)),
        Err(e) => Err(e),
    }
}

/// The array whose header stands in line `at`, given what follows the length in that header.
#[verifier::opaque]
pub open spec fn read_array(
    lines: Seq<Seq<char>>,
    at: int,
    after: Seq<char>,
    n: nat,
    level: int,
) -> Result<(JsonModel, int), Seq<char>>
    decreases lines.len() - at, 1int,
{
    if 0 <= at < lines.len() {
        array_step(lines, at, after, n, read_items(lines, at + 1, n, level + 1))
    } else {
        Err(seq![])
    }
}

/// The length between the brackets at the start of a header.
pub open spec fn read_length(header: Seq<char>) -> Option<nat> {
    parse_unsigned(header.subrange(1, index_of(header, ']')), usize::MAX as nat)
}

/// The array whose header, from its opening bracket on, is `header`; `missing` and `bad` are the
/// messages for a header without a closing bracket and for one without a length.
#[verifier::opaque]
pub open spec fn read_header(
    lines: Seq<Seq<char>>,
    at: int,
    header: Seq<char>,
    level: int,
    missing: Seq<char>,
    bad: Seq<char>,
) -> Result<(JsonModel, int), Seq<char>>
    decreases lines.len() - at, 2int,
{
    let close = index_of(header, ']');
    if close >= header.len() {
        Err(missing)
    } else {
        match read_length(header) {
            None => Err(bad),
            Some(n) => read_array(lines, at, header.skip(close + 1), n, level),
        }
    }
}

/// The `n` items of a list from line `at` on.
#[verifier::opaque]
pub open spec fn read_items(
    lines: Seq<Seq<char>>,
    at: int,
    n: nat,
    level: int,
) -> Result<(Seq<JsonModel>, int), Seq<char>>
    decreases lines.len() - at, 5int,
{
    if n == 0 {
        Ok((seq![], at))
    } else {
        match read_item(lines, at, level) {
            Err(e) => Err(e),
            Ok((item, next)) => if at < next <= lines.len() {
                match read_items(lines, next, (n - 1) as nat, level) {
                    Ok((rest, end)) => Ok((seq![item] + rest, end)),
                    Err(e) => Err(e),
                }
            } else {
                Err(seq![])
            },
        }
    }
}

/// What stands behind the hyphen of an item and the space after it.
pub open spec fn item_body(line: Seq<char>) -> Option<Seq<char>> {
    let trimmed = trim_start(line);
    if !first_is(trimmed, '-') {
        None
    } else if first_is(trimmed.skip(1), ' ') {
        Some(trimmed.skip(2))
    } else {
        Some(trimmed.skip(1))
    }
}

/// Whether the object of an item goes on in line `at`.
pub open spec fn goes_on(lines: Seq<Seq<char>>, at: int, level: int) -> bool {
    &&& 0 <= at < lines.len()
    &&& trim(lines[at]).len() > 0
    &&& line_level(lines[at]) == level + 1
    &&& !first_is(trim_start(lines[at]), '-')
}

/// The item of a list that starts in line `at`.
#[verifier::opaque]
pub open spec fn read_item(lines: Seq<Seq<char>>, at: int, level: int) -> Result<
    (JsonModel, int),
    Seq<char>,
>
    decreases lines.len() - at, 4int,
{
    if !(0 <= at < lines.len()) {
        Err("truncated list"@)
    } else {
        match item_body(lines[at]) {
            None => Err("expected '-' list item, got: "@ + lines[at]),
            Some(body) => {
                let colon = after_name(body, ':');
                let bracket = after_name(body, '[');
                if body.len() == 0 {
                    Ok((JsonModel::Object(seq![]), at + 1))
                } else if trim(body) == "[]"@ {
                    Ok((JsonModel::Array(seq![]), at + 1))
                } else if first_is(body, '[') {
                    read_header(
                        lines,
                        at,
                        body,
                        level,
                        "missing ']' in list-item array"@,
                        "bad count in list-item array"@,
                    )
                } else if colon >= body.len() {
                    Ok((parse_scalar(body), at + 1))
                } else if colon < bracket {
                    let key = read_name(body.take(colon));
                    match read_first_value(lines, at, trim(body.skip(colon + 1)), level) {
                        Err(e) => Err(e),
                        Ok((first, next)) => read_siblings(lines, at, key, first, next, level),
                    }
                } else {
                    let key = read_name(body.take(bracket));
                    match read_header(
                        lines,
                        at,
                        body.skip(bracket),
                        level + 1,
                        "missing ']' after list-item array key"@,
                        "bad count in list-item array key"@,
                    ) {
                        Err(e) => Err(e),
                        Ok((first, next)) => read_siblings(lines, at, key, first, next, level),
                    }
                }
            },
        }
    }
}

/// The object of an item in line `at` whose first field was read up to line `next`: the other fields stand
/// one level further in.
#[verifier::opaque]
pub open spec fn read_siblings(
    lines: Seq<Seq<char>>,
    at: int,
    key: Seq<char>,
    first: JsonModel,
    next: int,
    level: int,
) -> Result<(JsonModel, int), Seq<char>>
    decreases lines.len() - at, 3int,
{
    let map = with_field(seq![], key, first);
    if at < next && goes_on(lines, next, level) {
        match read_fields(lines, next, level + 1, seq![]) {
            Err(e) => Err(e),
            Ok((more, end)) => Ok((JsonModel::Object(with_fields(map, more)), end)),
        }
    } else {
        Ok((JsonModel::Object(map), next))
    }
}

/// The value of the field behind the hyphen of line `at`, of which `value` stands in that line.
#[verifier::opaque]
pub open spec fn read_first_value(
    lines: Seq<Seq<char>>,
    at: int,
    value: Seq<char>,
    level: int,
) -> Result<(JsonModel, int), Seq<char>>
    decreases lines.len() - at, 2int,
{
    if value.len() > 0 {
        Ok((parse_scalar(value), at + 1))
    } else if 0 <= at && at + 1 < lines.len() && line_level(lines[at + 1]) == level + 2 {
        as_object(read_fields(lines, at + 1, level + 2, seq![]))
    } else {
        Ok((JsonModel::Object(seq![]), at + 1))
    }
}

/// The fields with those of `more` set one after the other.
pub open spec fn with_fields(
    map: Seq<(Seq<char>, JsonModel)>,
    more: Seq<(Seq<char>, JsonModel)>,
) -> Seq<(Seq<char>, JsonModel)>
    decreases more.len(),
{
    if more.len() == 0 {
        map
    } else {
        with_fields(with_field(map, more[0].0, more[0].1), more.drop_first())
    }
}

/// Whether line `at` is not a field on this level: blank, on another level or an item of a list.
pub open spec fn no_field(lines: Seq<Seq<char>>, at: int, level: int) -> bool {
    ||| !(0 <= at < lines.len())
    ||| trim(lines[at]).len() == 0
    ||| line_level(lines[at]) != level
    ||| first_is(trim_start(lines[at]), '-')
}

/// Whether a field starts with the header of an array: a name, and then a bracket before the colon.
pub open spec fn starts_array(field: Seq<char>) -> bool {
    let bracket = after_name(field, '[');
    0 < bracket < field.len() && (bracket < after_name(field, ':') || no_space(field.take(bracket)))
}

/// The field that starts in line `at`, and the line after it.
#[verifier::opaque]
pub open spec fn read_field(lines: Seq<Seq<char>>, at: int, level: int) -> Result<
    (Seq<char>, JsonModel, int),
    Seq<char>,
>
    decreases lines.len() - at, 3int,
{
    let trimmed = trim_start(lines[at]);
    let bracket = after_name(trimmed, '[');
    let colon = after_name(trimmed, ':');
    if starts_array(trimmed) {
        match read_header(
            lines,
            at,
            trimmed.skip(bracket),
            level,
            "missing ']' in header: "@ + lines[at],
            "bad length in header: "@ + lines[at],
        ) {
            Err(e) => Err(e),
            Ok((value, next)) => Ok((read_name(trimmed.take(bracket)), value, next)),
        }
    } else if colon >= trimmed.len() {
        Err("expected ':' in: "@ + lines[at])
    } else {
        let key = read_name(trimmed.take(colon));
        let value = trim(trimmed.skip(colon + 1));
        if value.len() > 0 {
            Ok((key, parse_scalar(value), at + 1))
        } else if 0 <= at && at + 1 < lines.len() && line_level(lines[at + 1]) == level + 1 {
            match read_fields(lines, at + 1, level + 1, seq![]) {
                Err(e) => Err(e),
                Ok((nested, next)) => Ok((key, JsonModel::Object(nested), next)),
            }
        } else {
            Ok((key, JsonModel::Object(seq![]), at + 1))
        }
    }
}

/// The fields from line `at` on, down to the first line that is none on this level; `map` holds those
/// that were read before.
#[verifier::opaque]
pub open spec fn read_fields(
    lines: Seq<Seq<char>>,
    at: int,
    level: int,
    map: Seq<(Seq<char>, JsonModel)>,
) -> Result<(Seq<(Seq<char>, JsonModel)>, int), Seq<char>>
    decreases lines.len() - at, 4int,
{
    if no_field(lines, at, level) {
        Ok((map, at))
    } else {
        match read_field(lines, at, level) {
            Err(e) => Err(e),
            Ok((key, value, next)) => if at < next <= lines.len() {
                read_fields(lines, next, level, with_field(map, key, value))
            } else {
                Err(seq![])
            },
        }
    }
}

// The readers call each other, so their definitions are opened one at a time.

pub proof fn lemma_read_array(lines: Seq<Seq<char>>, at: int, after: Seq<char>, n: nat, level: int)
    requires
        0 <= at < lines.len(),
    ensures
        read_array(lines, at, after, n, level) == array_step(
            lines,
            at,
            after,
            n,
            read_items(lines, at + 1, n, level + 1),
        ),
{
    reveal(read_array);
    reveal(read_items);
}

pub proof fn lemma_read_header(
    lines: Seq<Seq<char>>,
    at: int,
    header: Seq<char>,
    level: int,
    missing: Seq<char>,
    bad: Seq<char>,
)
    ensures
        read_header(lines, at, header, level, missing, bad) == {
            let close = index_of(header, ']');
            if close >= header.len() {
                Err::<(JsonModel, int), Seq<char>>(missing)
            } else {
                match read_length(header) {
                    None => Err::<(JsonModel, int), Seq<char>>(bad),
                    Some(n) => read_array(lines, at, header.skip(close + 1), n, level),
                }
            }
        },
{
    reveal(read_header);
    reveal(read_array);
}

pub proof fn lemma_read_items(lines: Seq<Seq<char>>, at: int, n: nat, level: int)
    ensures
        n == 0 ==> read_items(lines, at, n, level) == Ok::<(Seq<JsonModel>, int), Seq<char>>(
            (seq![], at),
        ),
        n > 0 ==> match read_item(lines, at, level) {
            Err(e) => read_items(lines, at, n, level) == Err::<(Seq<JsonModel>, int), Seq<char>>(e),
            Ok((item, next)) => at < next <= lines.len() ==> match read_items(
                lines,
                next,
                (n - 1) as nat,
                level,
            ) {
                Ok((rest, end)) => read_items(lines, at, n, level) == Ok::<
                    (Seq<JsonModel>, int),
                    Seq<char>,
                >((seq![item] + rest, end)),
                Err(e) => read_items(lines, at, n, level) == Err::<(Seq<JsonModel>, int), Seq<char>>(e),
            },
        },
{
    reveal(read_items);
    reveal(read_item);
}

pub proof fn lemma_read_item(lines: Seq<Seq<char>>, at: int, level: int)
    ensures
        !(0 <= at < lines.len()) ==> read_item(lines, at, level) == Err::<(JsonModel, int), Seq<char>>(
            "truncated list"@,
        ),
        0 <= at < lines.len() ==> match item_body(lines[at]) {
            None => read_item(lines, at, level) == Err::<(JsonModel, int), Seq<char>>(
                "expected '-' list item, got: "@ + lines[at],
            ),
            Some(body) => {
                let colon = after_name(body, ':');
                let bracket = after_name(body, '[');
                if body.len() == 0 {
                    read_item(lines, at, level) == Ok::<(JsonModel, int), Seq<char>>(
                        (JsonModel::Object(seq![]), at + 1),
                    )
                } else if trim(body) == "[]"@ {
                    read_item(lines, at, level) == Ok::<(JsonModel, int), Seq<char>>(
                        (JsonModel::Array(seq![]), at + 1),
                    )
                } else if first_is(body, '[') {
                    read_item(lines, at, level) == read_header(
                        lines,
                        at,
                        body,
                        level,
                        "missing ']' in list-item array"@,
                        "bad count in list-item array"@,
                    )
                } else if colon >= body.len() {
                    read_item(lines, at, level) == Ok::<(JsonModel, int), Seq<char>>(
                        (parse_scalar(body), at + 1),
                    )
                } else if colon < bracket {
                    match read_first_value(lines, at, trim(body.skip(colon + 1)), level) {
                        Err(e) => read_item(lines, at, level) == Err::<(JsonModel, int), Seq<char>>(e),
                        Ok((first, next)) => read_item(lines, at, level) == read_siblings(
                            lines,
                            at,
                            read_name(body.take(colon)),
                            first,
                            next,
                            level,
                        ),
                    }
                } else {
                    match read_header(
                        lines,
                        at,
                        body.skip(bracket),
                        level + 1,
                        "missing ']' after list-item array key"@,
                        "bad count in list-item array key"@,
                    ) {
                        Err(e) => read_item(lines, at, level) == Err::<(JsonModel, int), Seq<char>>(e),
                        Ok((first, next)) => read_item(lines, at, level) == read_siblings(
                            lines,
                            at,
                            read_name(body.take(bracket)),
                            first,
                            next,
                            level,
                        ),
                    }
                }
            },
        },
{
    reveal(read_item);
    reveal(read_first_value);
    reveal(read_siblings);
    reveal(read_header);
}

pub proof fn lemma_read_siblings(
    lines: Seq<Seq<char>>,
    at: int,
    key: Seq<char>,
    first: JsonModel,
    next: int,
    level: int,
)
    ensures
        ({
            let map = with_field(seq![], key, first);
            if at < next && goes_on(lines, next, level) {
                match read_fields(lines, next, level + 1, seq![]) {
                    Err(e) => read_siblings(lines, at, key, first, next, level) == Err::<
                        (JsonModel, int),
                        Seq<char>,
                    >(e),
                    Ok((more, end)) => read_siblings(lines, at, key, first, next, level) == Ok::<
                        (JsonModel, int),
                        Seq<char>,
                    >((JsonModel::Object(with_fields(map, more)), end)),
                }
            } else {
                read_siblings(lines, at, key, first, next, level) == Ok::<(JsonModel, int), Seq<char>>(
                    (JsonModel::Object(map), next),
                )
            }
        }),
{
    reveal(read_siblings);
    reveal(read_fields);
}

pub proof fn lemma_read_first_value(lines: Seq<Seq<char>>, at: int, value: Seq<char>, level: int)
    requires
        0 <= at,
    ensures
        read_first_value(lines, at, value, level) == if value.len() > 0 {
            Ok::<(JsonModel, int), Seq<char>>((parse_scalar(value), at + 1))
        } else if at + 1 < lines.len() && line_level(lines[at + 1]) == level + 2 {
            as_object(read_fields(lines, at + 1, level + 2, seq![]))
        } else {
            Ok::<(JsonModel, int), Seq<char>>((JsonModel::Object(seq![]), at + 1))
        },
{
    reveal(read_first_value);
    reveal(read_fields);
}

pub proof fn lemma_read_field(lines: Seq<Seq<char>>, at: int, level: int)
    requires
        0 <= at,
    ensures
        ({
            let trimmed = trim_start(lines[at]);
            let bracket = after_name(trimmed, '[');
            let colon = after_name(trimmed, ':');
            let key = read_name(trimmed.take(colon));
            let value = trim(trimmed.skip(colon + 1));
            if starts_array(trimmed) {
                match read_header(
                    lines,
                    at,
                    trimmed.skip(bracket),
                    level,
                    "missing ']' in header: "@ + lines[at],
                    "bad length in header: "@ + lines[at],
                ) {
                    Err(e) => read_field(lines, at, level) == Err::<
                        (Seq<char>, JsonModel, int),
                        Seq<char>,
                    >(e),
                    Ok((value, next)) => read_field(lines, at, level) == Ok::<
                        (Seq<char>, JsonModel, int),
                        Seq<char>,
                    >((read_name(trimmed.take(bracket)), value, next)),
                }
            } else if colon >= trimmed.len() {
                read_field(lines, at, level) == Err::<(Seq<char>, JsonModel, int), Seq<char>>(
                    "expected ':' in: "@ + lines[at],
                )
            } else if value.len() > 0 {
                read_field(lines, at, level) == Ok::<(Seq<char>, JsonModel, int), Seq<char>>(
                    (key, parse_scalar(value), at + 1),
                )
            } else if at + 1 < lines.len() && line_level(lines[at + 1]) == level + 1 {
                match read_fields(lines, at + 1, level + 1, seq![]) {
                    Err(e) => read_field(lines, at, level) == Err::<
                        (Seq<char>, JsonModel, int),
                        Seq<char>,
                    >(e),
                    Ok((nested, next)) => read_field(lines, at, level) == Ok::<
                        (Seq<char>, JsonModel, int),
                        Seq<char>,
                    >((key, JsonModel::Object(nested), next)),
                }
            } else {
                read_field(lines, at, level) == Ok::<(Seq<char>, JsonModel, int), Seq<char>>(
                    (key, JsonModel::Object(seq![]), at + 1),
                )
            }
        }),
{
    reveal(read_field);
    reveal(read_header);
    reveal(read_fields);
}

pub proof fn lemma_read_fields(
    lines: Seq<Seq<char>>,
    at: int,
    level: int,
    map: Seq<(Seq<char>, JsonModel)>,
)
    ensures
        no_field(lines, at, level) ==> read_fields(lines, at, level, map) == Ok::<
            (Seq<(Seq<char>, JsonModel)>, int),
            Seq<char>,
        >((map, at)),
        !no_field(lines, at, level) ==> match read_field(lines, at, level) {
            Err(e) => read_fields(lines, at, level, map) == Err::<
                (Seq<(Seq<char>, JsonModel)>, int),
                Seq<char>,
            >(e),
            Ok((key, value, next)) => at < next <= lines.len() ==> read_fields(lines, at, level, map)
                == read_fields(lines, next, level, with_field(map, key, value)),
        },
{
    reveal(read_fields);
    reveal(read_field);
}

/// Whether a text is no field: behind the quoted string that it may start with stands neither a colon nor
/// a bracket.
pub open spec fn is_token(t: Seq<char>) -> bool {
    after_name(t, ':') >= t.len() && after_name(t, '[') >= t.len()
}

/// What a TOON text reads as.
pub open spec fn toon_value(text: Seq<char>) -> Result<JsonModel, Seq<char>> {
    let ls = split_lines(text);
    if ls.len() == 0 || ls.len() == 1 && trim(ls[0]).len() == 0 {
        Ok(JsonModel::Object(seq![]))
    } else if ls.len() == 1 && trim(ls[0]) == "[]"@ {
        Ok(JsonModel::Array(seq![]))
    } else if first_is(trim_start(ls[0]), '[') {
        let header = trim(ls[0]);
        match read_header(
            ls,
            0,
            header,
            0,
            "missing ']' in array header: "@ + header,
            "bad array length in: "@ + header,
        ) {
            Err(e) => Err(e),
            Ok((value, _)) => Ok(value),
        }
    } else if ls.len() == 1 && is_token(trim(ls[0])) {
        Ok(parse_scalar(ls[0]))
    } else {
        match read_fields(ls, 0, 0, seq![]) {
            Err(e) => Err(e),
            Ok((map, _)) => Ok(JsonModel::Object(map)),
        }
    }
}

/// The outcome of reading, by its value or its message.
pub open spec fn reads_as(
    r: Result<(Json, usize), DecodeError>,
    s: Result<(JsonModel, int), Seq<char>>,
) -> bool {
    match (r, s) {
        (Ok((j, n)), Ok((m, k))) => j@ == m && n == k,
        (Err(e), Err(t)) => e.0@ == t,
        _ => false,
    }
}

pub open spec fn reads_items_as(
    r: Result<(Vec<Json>, usize), DecodeError>,
    s: Result<(Seq<JsonModel>, int), Seq<char>>,
) -> bool {
    match (r, s) {
        (Ok((v, n)), Ok((m, k))) => models(v@) == m && n == k,
        (Err(e), Err(t)) => e.0@ == t,
        _ => false,
    }
}

pub open spec fn reads_fields_as(
    r: Result<(Vec<(String, Json)>, usize), DecodeError>,
    s: Result<(Seq<(Seq<char>, JsonModel)>, int), Seq<char>>,
) -> bool {
    match (r, s) {
        (Ok((v, n)), Ok((m, k))) => field_models(v@) == m && n == k,
        (Err(e), Err(t)) => e.0@ == t,
        _ => false,
    }
}

fn error(message: &str, detail: &str) -> (e: DecodeError)
    ensures
        e.0@ == message@ + detail@,
{
    let mut s = copy_str(message);
    s.append(detail);
    DecodeError(s)
}

fn plain_error(message: &str) -> (e: DecodeError)
    ensures
        e.0@ == message@,
{
    DecodeError(copy_str(message))
}

fn level_of(line: &str) -> (n: usize)
    ensures
        n == line_level(line@),
{
    let v = to_chars(line);
    let mut i: usize = 0;
    assert(line@.skip(0) =~= line@);
    while i < v.len() && v[i] == ' '
        invariant
            i <= v@.len(),
            v@ == line@,
            i + space_run(line@.skip(i as int)) == space_run(line@),
        decreases v.len() - i,
    {
        assert(line@.skip(i as int).drop_first() =~= line@.skip(i + 1));
        i = i + 1;
    }
    i / 2
}

fn is_blank(line: &str) -> (b: bool)
    ensures
        b == (trim(line@).len() == 0),
{
    let t = trim_text(line);
    let v = to_chars(t.as_str());
    v.len() == 0
}

fn starts_item(line: &str) -> (b: bool)
    ensures
        b == first_is(trim_start(line@), '-'),
{
    let t = trim_start_text(line);
    text_first_is(t.as_str(), '-')
}

/// The parts of a text: the first `k` characters, or those after the first `k`.
fn text_take(v: &Vec<char>, k: usize) -> (s: String)
    requires
        k <= v@.len(),
    ensures
        s@ == v@.take(k as int),
{
    assert(v@.take(k as int) =~= v@.subrange(0, k as int));
    slice_text(v, 0, k)
}

fn text_skip(v: &Vec<char>, k: usize) -> (s: String)
    requires
        k <= v@.len(),
    ensures
        s@ == v@.skip(k as int),
{
    assert(v@.skip(k as int) =~= v@.subrange(k as int, v@.len() as int));
    slice_text(v, k, v.len())
}

fn read_row(names: &Vec<String>, line: &str) -> (map: Vec<(String, Json)>)
    ensures
        field_models(map@) == row_object(views(names@), cells(trim(line@), false, seq![]), seq![]),
{
    let t = trim_text(line);
    let row = split_delimited(t.as_str());
    let mut map: Vec<(String, Json)> = Vec::new();
    let mut i: usize = 0;
    let ghost ns = views(names@);
    let ghost rs = views(row@);
    let ghost all = row_object(ns, rs, seq![]);
    assert(field_models(map@) =~= Seq::<(Seq<char>, JsonModel)>::empty());
    assert(ns.skip(0) =~= ns);
    assert(rs.skip(0) =~= rs);
    while i < names.len() && i < row.len()
        invariant
            i <= names@.len(),
            i <= row@.len(),
            ns == views(names@),
            rs == views(row@),
            row_object(ns.skip(i as int), rs.skip(i as int), field_models(map@)) == all,
        decreases names.len() - i,
    {
        assert(ns.skip(i as int)[0] == names@[i as int]@);
        assert(rs.skip(i as int)[0] == row@[i as int]@);
        assert(ns.skip(i as int).drop_first() =~= ns.skip(i + 1));
        assert(rs.skip(i as int).drop_first() =~= rs.skip(i + 1));
        set_field(&mut map, names[i].clone(), parse_scalar_token(row[i].as_str()));
        i = i + 1;
    }
    map
}

fn parse_rows(lines: &Vec<String>, at: usize, names: &Vec<String>, n: usize) -> (r: Result<
    (Vec<Json>, usize),
    DecodeError,
>)
    requires
        at <= lines@.len(),
    ensures
        reads_items_as(r, read_rows(views(lines@), at as int, views(names@), n as nat)),
        r matches Ok((_, next)) ==> at <= next <= lines@.len(),
{
    let ghost ls = views(lines@);
    let ghost ns = views(names@);
    let ghost all = read_rows(ls, at as int, ns, n as nat);
    let mut items: Vec<Json> = Vec::new();
    let mut line_no: usize = at;
    let mut left: usize = n;
    assert(models(items@) =~= Seq::<JsonModel>::empty());
    while left > 0
        invariant
            at <= line_no <= lines@.len(),
            ls == views(lines@),
            ns == views(names@),
            all == read_rows(ls, at as int, ns, n as nat),
            match read_rows(ls, line_no as int, ns, left as nat) {
                Ok((rest, next)) => all == Ok::<(Seq<JsonModel>, int), Seq<char>>(
                    (models(items@) + rest, next),
                ),
                Err(e) => all == Err::<(Seq<JsonModel>, int), Seq<char>>(e),
            },
        decreases left,
    {
        if line_no >= lines.len() {
            return Err(plain_error("truncated tabular array"));
        }
        assert(ls[line_no as int] == lines@[line_no as int]@);
        let map = read_row(names, lines[line_no].as_str());
        let ghost object = JsonModel::Object(field_models(map@));
        let ghost before = models(items@);
        items.push(Json::Object(map));
        proof {
            match read_rows(ls, line_no + 1, ns, (left - 1) as nat) {
                Ok((rest, next)) => {
                    assert(models(items@) + rest =~= before + (seq![object] + rest));
                },
                Err(_) => {},
            }
        }
        line_no = line_no + 1;
        left = left - 1;
    }
    assert(models(items@) + Seq::<JsonModel>::empty() =~= models(items@));
    Ok((items, line_no))
}

fn parse_tokens(tokens: &Vec<String>) -> (v: Vec<Json>)
    ensures
        models(v@) == parse_all(views(tokens@)),
{
    let mut v: Vec<Json> = Vec::new();
    let mut i: usize = 0;
    while i < tokens.len()
        invariant
            i <= tokens@.len(),
            v@.len() == i,
            forall|j: int| 0 <= j < i ==> model(#[trigger] v@[j]) == parse_scalar(tokens@[j]@),
        decreases tokens.len() - i,
    {
        v.push(parse_scalar_token(tokens[i].as_str()));
        i = i + 1;
    }
    assert(models(v@) =~= parse_all(views(tokens@)));
    v
}

fn parse_array_body(lines: &Vec<String>, at: usize, after: &str, n: usize, level: u128) -> (r: Result<
    (Json, usize),
    DecodeError,
>)
    requires
        at < lines@.len(),
        level <= 2 * at + 2,
    ensures
        reads_as(r, read_array(views(lines@), at as int, after@, n as nat, level as int)),
        r matches Ok((_, next)) ==> at < next <= lines@.len(),
    decreases lines@.len() - at, 1int,
{
    let total: usize = lines.len();
    proof {
        lemma_read_array(views(lines@), at as int, after@, n as nat, level as int);
    }
    let v = to_chars(after);
    if v.len() > 0 && v[0] == '{' {
        let part = text_skip(&v, 1);
        let p = to_chars(part.as_str());
        let close = find_brace(&p);
        if close == p.len() {
            return Err(plain_error("missing '}' in tabular header"));
        }
        let inner = text_take(&p, close);
        let names = parse_columns(inner.as_str());
        return match parse_rows(lines, at + 1, &names, n) {
            Ok((items, next)) => Ok((Json::Array(items), next)),
            Err(e) => Err(e),
        };
    }
    if v.len() > 0 && v[0] == ':' {
        let part = text_skip(&v, 1);
        let inline = trim_text(part.as_str());
        let inline_chars = to_chars(inline.as_str());
        if inline_chars.len() > 0 {
            let tokens = split_delimited(inline.as_str());
            return Ok((Json::Array(parse_tokens(&tokens)), at + 1));
        }
        return match parse_items(lines, at + 1, n, level + 1) {
            Ok((items, next)) => Ok((Json::Array(items), next)),
            Err(e) => Err(e),
        };
    }
    let shown = debug_text(after);
    Err(error("unrecognized array header suffix: ", shown.as_str()))
}

/// The array whose header, from its opening bracket on, is `header`.
fn parse_header(
    lines: &Vec<String>,
    at: usize,
    header: &str,
    level: u128,
    missing: String,
    bad: String,
) -> (r: Result<(Json, usize), DecodeError>)
    requires
        at < lines@.len(),
        level <= 2 * at + 2,
        first_is(header@, '['),
    ensures
        reads_as(
            r,
            read_header(views(lines@), at as int, header@, level as int, missing@, bad@),
        ),
        r matches Ok((_, next)) ==> at < next <= lines@.len(),
    decreases lines@.len() - at, 2int,
{
    proof {
        lemma_read_header(views(lines@), at as int, header@, level as int, missing@, bad@);
    }
    let h = to_chars(header);
    let close = find_char(&h, ']', 0);
    assert(h@.skip(0) =~= h@);
    if close == h.len() {
        return Err(DecodeError(missing));
    }
    let digits = slice_text(&h, 1, close);
    match parse_usize(digits.as_str()) {
        None => Err(DecodeError(bad)),
        Some(n) => {
            let after = text_skip(&h, close + 1);
            parse_array_body(lines, at, after.as_str(), n, level)
        },
    }
}

fn parse_items(lines: &Vec<String>, at: usize, n: usize, level: u128) -> (r: Result<
    (Vec<Json>, usize),
    DecodeError,
>)
    requires
        at <= lines@.len(),
        level <= 2 * at + 1,
    ensures
        reads_items_as(r, read_items(views(lines@), at as int, n as nat, level as int)),
        r matches Ok((_, next)) ==> at <= next <= lines@.len(),
    decreases lines@.len() - at, 5int,
{
    let ghost ls = views(lines@);
    let ghost all = read_items(ls, at as int, n as nat, level as int);
    let mut items: Vec<Json> = Vec::new();
    let mut line_no: usize = at;
    let mut left: usize = n;
    assert(models(items@) =~= Seq::<JsonModel>::empty());
    proof {
        match all {
            Ok((rest, _)) => {
                assert(models(items@) + rest =~= rest);
            },
            Err(_) => {},
        }
    }
    while left > 0
        invariant
            at <= line_no <= lines@.len(),
            level <= 2 * at + 1,
            ls == views(lines@),
            all == read_items(ls, at as int, n as nat, level as int),
            match read_items(ls, line_no as int, left as nat, level as int) {
                Ok((rest, next)) => all == Ok::<(Seq<JsonModel>, int), Seq<char>>(
                    (models(items@) + rest, next),
                ),
                Err(e) => all == Err::<(Seq<JsonModel>, int), Seq<char>>(e),
            },
        decreases left,
    {
        proof {
            lemma_read_items(ls, line_no as int, left as nat, level as int);
        }
        match parse_list_item(lines, line_no, level) {
            Err(e) => {
                return Err(e);
            },
            Ok((item, next)) => {
                let ghost before = models(items@);
                let ghost m = item@;
                items.push(item);
                proof {
                    match read_items(ls, next as int, (left - 1) as nat, level as int) {
                        Ok((rest, end)) => {
                            assert(models(items@) + rest =~= before + (seq![m] + rest));
                        },
                        Err(_) => {},
                    }
                }
                line_no = next;
                left = left - 1;
            },
        }
    }
    proof {
        lemma_read_items(ls, line_no as int, 0, level as int);
    }
    assert(models(items@) + Seq::<JsonModel>::empty() =~= models(items@));
    Ok((items, line_no))
}

fn one_field(key: String, value: Json) -> (map: Vec<(String, Json)>)
    ensures
        field_models(map@) == with_field(seq![], key@, value@),
{
    let mut map: Vec<(String, Json)> = Vec::new();
    assert(field_models(map@) =~= Seq::<(Seq<char>, JsonModel)>::empty());
    set_field(&mut map, key, value);
    map
}

fn no_fields() -> (map: Vec<(String, Json)>)
    ensures
        field_models(map@) == Seq::<(Seq<char>, JsonModel)>::empty(),
{
    let map: Vec<(String, Json)> = Vec::new();
    assert(field_models(map@) =~= Seq::<(Seq<char>, JsonModel)>::empty());
    map
}

fn merge_fields(map: Vec<(String, Json)>, more: Vec<(String, Json)>) -> (out: Vec<(String, Json)>)
    ensures
        field_models(out@) == with_fields(field_models(map@), field_models(more@)),
{
    let mut map = map;
    let ghost all = with_fields(field_models(map@), field_models(more@));
    let ghost ms = field_models(more@);
    let mut i: usize = 0;
    assert(ms.skip(0) =~= ms);
    while i < more.len()
        invariant
            i <= more@.len(),
            ms == field_models(more@),
            with_fields(field_models(map@), ms.skip(i as int)) == all,
        decreases more.len() - i,
    {
        assert(ms.skip(i as int)[0] == (more@[i as int].0@, model(more@[i as int].1)));
        assert(ms.skip(i as int).drop_first() =~= ms.skip(i + 1));
        set_field(&mut map, more[i].0.clone(), more[i].1.copy());
        i = i + 1;
    }
    map
}

fn parse_first_value(lines: &Vec<String>, at: usize, value: &str, level: u128) -> (r: Result<
    (Json, usize),
    DecodeError,
>)
    requires
        at < lines@.len(),
        level <= 2 * at + 1,
    ensures
        reads_as(r, read_first_value(views(lines@), at as int, value@, level as int)),
        r matches Ok((_, next)) ==> at < next <= lines@.len(),
    decreases lines@.len() - at, 2int,
{
    let total: usize = lines.len();
    let ghost ls = views(lines@);
    proof {
        lemma_read_first_value(ls, at as int, value@, level as int);
    }
    let v = to_chars(value);
    if v.len() > 0 {
        return Ok((parse_scalar_token(value), at + 1));
    }
    if at + 1 < total {
        assert(ls[at + 1] == lines@[at + 1]@);
        if level_of(lines[at + 1].as_str()) as u128 == level + 2 {
            return match parse_object_fields(lines, at + 1, level + 2) {
                Err(e) => Err(e),
                Ok((map, next)) => Ok((Json::Object(map), next)),
            };
        }
    }
    Ok((Json::Object(no_fields()), at + 1))
}

/// The object of an item whose first field was read up to line `next`.
fn parse_siblings(lines: &Vec<String>, at: usize, key: String, first: Json, next: usize, level: u128) -> (r: Result<
    (Json, usize),
    DecodeError,
>)
    requires
        at < next <= lines@.len(),
        level <= 2 * at + 1,
    ensures
        reads_as(
            r,
            read_siblings(views(lines@), at as int, key@, first@, next as int, level as int),
        ),
        r matches Ok((_, end)) ==> at < end <= lines@.len(),
    decreases lines@.len() - at, 3int,
{
    let ghost ls = views(lines@);
    proof {
        lemma_read_siblings(ls, at as int, key@, first@, next as int, level as int);
    }
    let map = one_field(key, first);
    if next < lines.len() {
        assert(ls[next as int] == lines@[next as int]@);
        if !is_blank(lines[next].as_str()) && level_of(lines[next].as_str()) as u128 == level + 1
            && !starts_item(lines[next].as_str()) {
            return match parse_object_fields(lines, next, level + 1) {
                Err(e) => Err(e),
                Ok((more, end)) => Ok((Json::Object(merge_fields(map, more)), end)),
            };
        }
    }
    Ok((Json::Object(map), next))
}

fn behind_item_hyphen(line: &str) -> (r: Option<String>)
    ensures
        r is Some <==> item_body(line@) is Some,
        r matches Some(s) ==> item_body(line@) == Some(s@),
{
    let trimmed = trim_start_text(line);
    let t = to_chars(trimmed.as_str());
    if t.len() == 0 || t[0] != '-' {
        return None;
    }
    if t.len() > 1 && t[1] == ' ' {
        Some(text_skip(&t, 2))
    } else {
        Some(text_skip(&t, 1))
    }
}

#[verifier::rlimit(40)]
fn parse_list_item(lines: &Vec<String>, at: usize, level: u128) -> (r: Result<(Json, usize), DecodeError>)
    requires
        at <= lines@.len(),
        level <= 2 * at + 1,
    ensures
        reads_as(r, read_item(views(lines@), at as int, level as int)),
        r matches Ok((_, next)) ==> at < next <= lines@.len(),
    decreases lines@.len() - at, 4int,
{
    let ghost ls = views(lines@);
    proof {
        lemma_read_item(ls, at as int, level as int);
    }
    if at >= lines.len() {
        return Err(plain_error("truncated list"));
    }
    assert(ls[at as int] == lines@[at as int]@);
    let body = match behind_item_hyphen(lines[at].as_str()) {
        None => {
            return Err(error("expected '-' list item, got: ", lines[at].as_str()));
        },
        Some(body) => body,
    };
    let b = to_chars(body.as_str());
    if b.len() == 0 {
        return Ok((Json::Object(no_fields()), at + 1));
    }
    let whole = trim_text(body.as_str());
    if same_text(whole.as_str(), "[]") {
        let none: Vec<Json> = Vec::new();
        assert(models(none@) =~= Seq::<JsonModel>::empty());
        return Ok((Json::Array(none), at + 1));
    }
    if b[0] == '[' {
        let missing = copy_str("missing ']' in list-item array");
        let bad = copy_str("bad count in list-item array");
        return parse_header(lines, at, body.as_str(), level, missing, bad);
    }
    let colon = find_after_name(&b, ':');
    let bracket = find_after_name(&b, '[');
    if colon == b.len() {
        return Ok((parse_scalar_token(body.as_str()), at + 1));
    }
    if colon < bracket {
        let name = text_take(&b, colon);
        let key = name_from(name.as_str());
        let value_part = text_skip(&b, colon + 1);
        let value = trim_text(value_part.as_str());
        return match parse_first_value(lines, at, value.as_str(), level) {
            Err(e) => Err(e),
            Ok((first, next)) => parse_siblings(lines, at, key, first, next, level),
        };
    }
    let name = text_take(&b, bracket);
    let key = name_from(name.as_str());
    assert(bracket < b@.len()) by {
        if bracket == colon {
            assert(b@[colon as int] == ':');
        }
    }
    let rest = text_skip(&b, bracket);
    assert(rest@[0] == b@[bracket as int]);
    let missing = copy_str("missing ']' after list-item array key");
    let bad = copy_str("bad count in list-item array key");
    match parse_header(lines, at, rest.as_str(), level + 1, missing, bad) {
        Err(e) => Err(e),
        Ok((first, next)) => parse_siblings(lines, at, key, first, next, level),
    }
}

/// Whether none of the first `k` characters is white space.
fn is_unbroken(v: &Vec<char>, k: usize) -> (b: bool)
    requires
        k <= v@.len(),
    ensures
        b == no_space(v@.take(k as int)),
{
    let ghost s = v@.take(k as int);
    let mut i: usize = 0;
    while i < k
        invariant
            i <= k <= v@.len(),
            s == v@.take(k as int),
            forall|j: int| 0 <= j < i ==> !is_space(#[trigger] s[j]),
        decreases k - i,
    {
        assert(s[i as int] == v@[i as int]);
        if is_whitespace(v[i]) {
            return false;
        }
        i = i + 1;
    }
    true
}

/// The outcome of reading a field, by its name and value or its message.
pub open spec fn reads_field_as(
    r: Result<(String, Json, usize), DecodeError>,
    s: Result<(Seq<char>, JsonModel, int), Seq<char>>,
) -> bool {
    match (r, s) {
        (Ok((key, j, n)), Ok((k, m, next))) => key@ == k && j@ == m && n == next,
        (Err(e), Err(t)) => e.0@ == t,
        _ => false,
    }
}

fn parse_field(lines: &Vec<String>, at: usize, level: u128) -> (r: Result<
    (String, Json, usize),
    DecodeError,
>)
    requires
        at < lines@.len(),
        level <= 2 * at + 1,
    ensures
        reads_field_as(r, read_field(views(lines@), at as int, level as int)),
        r matches Ok((_, _, next)) ==> at < next <= lines@.len(),
    decreases lines@.len() - at, 3int,
{
    let total: usize = lines.len();
    let ghost ls = views(lines@);
    proof {
        lemma_read_field(ls, at as int, level as int);
    }
    let line = &lines[at];
    assert(ls[at as int] == line@);
    let trimmed = trim_start_text(line.as_str());
    let t = to_chars(trimmed.as_str());
    let bracket = find_after_name(&t, '[');
    let colon = find_after_name(&t, ':');
    if 0 < bracket && bracket < t.len() && (bracket < colon || is_unbroken(&t, bracket)) {
        let name = text_take(&t, bracket);
        let key = name_from(name.as_str());
        let rest = text_skip(&t, bracket);
        assert(rest@[0] == t@[bracket as int]);
        let missing = error("missing ']' in header: ", line.as_str());
        let bad = error("bad length in header: ", line.as_str());
        return match parse_header(lines, at, rest.as_str(), level, missing.0, bad.0) {
            Err(e) => Err(e),
            Ok((value, next)) => Ok((key, value, next)),
        };
    }
    if colon == t.len() {
        return Err(error("expected ':' in: ", line.as_str()));
    }
    let name = text_take(&t, colon);
    let key = name_from(name.as_str());
    let value_part = text_skip(&t, colon + 1);
    let value = trim_text(value_part.as_str());
    let value_chars = to_chars(value.as_str());
    if value_chars.len() > 0 {
        return Ok((key, parse_scalar_token(value.as_str()), at + 1));
    }
    if at + 1 < total {
        assert(ls[at + 1] == lines@[at + 1]@);
        if level_of(lines[at + 1].as_str()) as u128 == level + 1 {
            return match parse_object_fields(lines, at + 1, level + 1) {
                Err(e) => Err(e),
                Ok((nested, next)) => Ok((key, Json::Object(nested), next)),
            };
        }
    }
    Ok((key, Json::Object(no_fields()), at + 1))
}

fn parse_object_fields(lines: &Vec<String>, at: usize, level: u128) -> (r: Result<
    (Vec<(String, Json)>, usize),
    DecodeError,
>)
    requires
        at <= lines@.len(),
        level <= 2 * at + 1,
    ensures
        reads_fields_as(r, read_fields(views(lines@), at as int, level as int, seq![])),
        r matches Ok((_, next)) ==> at <= next <= lines@.len(),
    decreases lines@.len() - at, 4int,
{
    let ghost ls = views(lines@);
    let ghost all = read_fields(ls, at as int, level as int, seq![]);
    let mut map = no_fields();
    let mut line_no: usize = at;
    while line_no < lines.len()
        invariant
            at <= line_no <= lines@.len(),
            level <= 2 * at + 1,
            ls == views(lines@),
            all == read_fields(ls, at as int, level as int, seq![]),
            all == read_fields(ls, line_no as int, level as int, field_models(map@)),
        decreases lines.len() - line_no,
    {
        proof {
            lemma_read_fields(ls, line_no as int, level as int, field_models(map@));
        }
        let line = &lines[line_no];
        assert(ls[line_no as int] == line@);
        if is_blank(line.as_str()) || level_of(line.as_str()) as u128 != level || starts_item(
            line.as_str(),
        ) {
            return Ok((map, line_no));
        }
        match parse_field(lines, line_no, level) {
            Err(e) => {
                return Err(e);
            },
            Ok((key, value, next)) => {
                set_field(&mut map, key, value);
                line_no = next;
            },
        }
    }
    proof {
        lemma_read_fields(ls, line_no as int, level as int, field_models(map@));
    }
    Ok((map, line_no))
}

/// The value that a TOON text reads as.
pub fn decode(text: &str) -> (r: Result<Json, DecodeError>)
    ensures
        match (r, toon_value(text@)) {
            (Ok(j), Ok(m)) => j@ == m,
            (Err(e), Err(t)) => e.0@ == t,
            _ => false,
        },
{
    let ls = lines(text);
    if ls.len() == 0 || (ls.len() == 1 && is_blank(ls[0].as_str())) {
        return Ok(Json::Object(no_fields()));
    }
    assert(views(ls@)[0] == ls@[0]@);
    let header = trim_text(ls[0].as_str());
    if ls.len() == 1 && same_text(header.as_str(), "[]") {
        let none: Vec<Json> = Vec::new();
        assert(models(none@) =~= Seq::<JsonModel>::empty());
        return Ok(Json::Array(none));
    }
    let start = trim_start_text(ls[0].as_str());
    if text_first_is(start.as_str(), '[') {
        proof {
            lemma_trim_end_keeps_first(start@);
        }
        let missing = error("missing ']' in array header: ", header.as_str());
        let bad = error("bad array length in: ", header.as_str());
        return match parse_header(&ls, 0, header.as_str(), 0, missing.0, bad.0) {
            Err(e) => Err(e),
            Ok((value, _)) => Ok(value),
        };
    }
    if ls.len() == 1 {
        let h = to_chars(header.as_str());
        if find_after_name(&h, ':') == h.len() && find_after_name(&h, '[') == h.len() {
            return Ok(parse_scalar_token(ls[0].as_str()));
        }
    }
    match parse_object_fields(&ls, 0, 0) {
        Err(e) => Err(e),
        Ok((map, _)) => Ok(Json::Object(map)),
    }
}

/// Trimming at the end keeps a first character that is not white space.
pub proof fn lemma_trim_end_keeps_first(s: Seq<char>)
    requires
        s.len() > 0,
        !is_space(s[0]),
    ensures
        crate::text::trim_end(s).len() > 0,
        crate::text::trim_end(s)[0] == s[0],
    decreases s.len(),
{
    if is_space(s.last()) {
        assert(s.len() > 1);
        lemma_trim_end_keeps_first(s.drop_last());
    }
}

} // verus!
