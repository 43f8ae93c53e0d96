//! How [`crate::toon::encode`] writes values, and what [`crate::toon::decode`] makes of texts.
use crate::json::{field, lemma_field_at, well_formed, with_field, JsonModel};
use crate::text::{
    dec, first_is, is_space, join, lemma_absent, lemma_text_less_irreflexive, numeric_like, signed_dec,
    split_lines, str_debug, text_less, trim, trim_start,
};
use crate::toon::{
    all_scalar, array_lines, array_step, brace_at, cells, escape, field_lines, has_scalar, is_special,
    is_table, is_token, item_lines, lemma_read_header, line_level, list_lines, name_text, name_texts,
    names, needs_quotes, one_field_lines, parse_all, parse_integer, parse_scalar, read_columns,
    read_rows, row_cells, row_object, same_columns, scalar_text, scalar_texts, space_run, toon_text,
    toon_value, unescape, unicode_char,
};
use vstd::prelude::*;

verus! {

// ---------------------------------------------------------------------------
// How values are written
// ---------------------------------------------------------------------------

/// The text needs no quotes: it is one token of printing characters without marks, has no white space at
/// its ends, and reads neither as a word for a constant, nor as a number, an item or a comment.
pub open spec fn reads_as_itself(s: Seq<char>) -> bool {
    &&& s.len() > 0
    &&& !is_space(s[0]) && !is_space(s.last())
    &&& s[0] != '-' && s[0] != '#'
    &&& s != "true"@ && s != "false"@ && s != "null"@
    &&& !numeric_like(s)
    &&& forall|i: int|
        0 <= i < s.len() ==> (#[trigger] s[i]) > '\u{1f}' && s[i] != ':' && s[i] != '"' && s[i] != '\\'
            && s[i] != '[' && s[i] != ']' && s[i] != '{' && s[i] != '}' && s[i] != ','
}

/// A string stands without quotes just where it needs none. The other scalars are written as words and
/// numbers.
pub proof fn strings_are_plain_where_they_can_be(s: Seq<char>, n: int)
    ensures
        reads_as_itself(s) ==> scalar_text(JsonModel::Text(s)) == s,
        !reads_as_itself(s) ==> scalar_text(JsonModel::Text(s)) == seq!['"'] + escape(s) + seq!['"'],
        scalar_text(JsonModel::Null) == "null"@,
        scalar_text(JsonModel::Bool(true)) == "true"@,
        scalar_text(JsonModel::Bool(false)) == "false"@,
        scalar_text(JsonModel::Int(n)) == signed_dec(n),
{
    if reads_as_itself(s) {
        assert forall|i: int| 0 <= i < s.len() implies !(is_special(#[trigger] s[i]) || s[i] <= '\u{1f}') by {
            assert(s[i] > '\u{1f}');
        }
    } else if !needs_quotes(s) {
        let i = choose|i: int|
            0 <= i < s.len() && !((#[trigger] s[i]) > '\u{1f}' && s[i] != ':' && s[i] != '"' && s[i]
                != '\\' && s[i] != '[' && s[i] != ']' && s[i] != '{' && s[i] != '}' && s[i] != ',');
        assert(is_special(s[i]) || s[i] <= '\u{1f}');
    }
}

/// Two objects or more that have the same fields, all of them scalars, are written as a table: a header
/// with their number and the names, and below it a row for each with its values in the order of the
/// names.
pub proof fn alike_objects_are_a_table(items: Seq<JsonModel>, pad: Seq<char>, prefix: Seq<char>, i: int)
    requires
        items.len() >= 2,
        forall|k: int| 0 <= k < items.len() ==> well_formed(#[trigger] items[k]) && items[k] is Object,
        forall|k: int| 0 <= k < items.len() ==> names((#[trigger] items[k])->Object_0) == names(
            items[0]->Object_0,
        ),
        forall|k: int, j: int|
            0 <= k < items.len() && 0 <= j < items[k]->Object_0.len() ==> {
                let v = (#[trigger] items[k]->Object_0[j]).1;
                !(v is Array) && !(v is Object)
            },
        0 <= i < items.len(),
    ensures
        ({
            let keys = names(items[0]->Object_0);
            let lines = array_lines(items, pad, prefix);
            let head = Seq::new(keys.len(), |j: int| name_text(keys[j]));
            let cells = Seq::new(keys.len(), |j: int| scalar_text(items[i]->Object_0[j].1));
            &&& lines.len() == items.len() + 1
            &&& lines[0] == pad + prefix + "["@ + dec(items.len()) + "]"@ + ("{"@ + join(head, ","@)
                + "}:"@)
            &&& lines[i + 1] == pad + "  "@ + join(cells, ","@)
        }),
{
    let first = items[0]->Object_0;
    let keys = names(first);
    assert forall|k: int| 0 <= k < items.len() implies same_columns(first, #[trigger] items[k]) by {
        let fs = items[k]->Object_0;
        assert(names(fs) == keys);
        assert(well_formed(items[k]));
        assert forall|j: int| 0 <= j < first.len() implies has_scalar(fs, (#[trigger] first[j]).0) by {
            lemma_named(fs, keys, j);
            assert(!(items[k]->Object_0[j].1 is Array) && !(items[k]->Object_0[j].1 is Object));
        }
    }
    assert(is_table(items));
    let lines = array_lines(items, pad, prefix);
    let head = Seq::new(keys.len(), |j: int| name_text(keys[j]));
    assert(name_texts(keys) =~= head);
    let fs = items[i]->Object_0;
    let cells = Seq::new(keys.len(), |j: int| scalar_text(fs[j].1));
    assert(names(fs) == keys);
    assert(well_formed(items[i]));
    assert forall|j: int| 0 <= j < keys.len() implies #[trigger] row_cells(keys, items[i])[j] == cells[j] by {
        lemma_named(fs, keys, j);
    }
    assert(row_cells(keys, items[i]) =~= cells);
}

proof fn lemma_named(fs: Seq<(Seq<char>, JsonModel)>, keys: Seq<Seq<char>>, j: int)
    requires
        well_formed(JsonModel::Object(fs)),
        names(fs) == keys,
        0 <= j < keys.len(),
    ensures
        fs.len() == keys.len(),
        field(fs, keys[j]) == Some(fs[j].1),
{
    assert(names(fs)[j] == fs[j].0);
    assert forall|k: int| 0 <= k < j implies (#[trigger] fs[k]).0 != keys[j] by {
        assert(text_less(fs[k].0, fs[j].0));
        lemma_text_less_irreflexive(fs[j].0);
    }
    lemma_field_at(fs, keys[j], j);
}

/// An array of scalars that is no table stands on one line with its number. Any other array that is no
/// table is a list below its number.
pub proof fn other_arrays_are_lists(items: Seq<JsonModel>, pad: Seq<char>, prefix: Seq<char>)
    requires
        items.len() > 0,
        items.len() == 1 || exists|i: int| 0 <= i < items.len() && !((#[trigger] items[i]) is Object),
    ensures
        ({
            let head = pad + prefix + "["@ + dec(items.len()) + "]"@;
            let texts = Seq::new(items.len(), |j: int| scalar_text(items[j]));
            let flat = forall|i: int|
                0 <= i < items.len() ==> !((#[trigger] items[i]) is Array) && !(items[i] is Object);
            &&& flat ==> array_lines(items, pad, prefix) == seq![head + (": "@ + join(texts, ","@))]
            &&& !flat ==> array_lines(items, pad, prefix) == seq![head + ":"@] + list_lines(
                items,
                pad + "  "@,
            )
        }),
{
    assert(!is_table(items)) by {
        if is_table(items) && items.len() > 1 {
            let i = choose|i: int| 0 <= i < items.len() && !((#[trigger] items[i]) is Object);
            assert(same_columns(items[0]->Object_0, items[i]));
        }
    }
    let texts = Seq::new(items.len(), |j: int| scalar_text(items[j]));
    assert(scalar_texts(items) =~= texts);
    let flat = forall|i: int|
        0 <= i < items.len() ==> !((#[trigger] items[i]) is Array) && !(items[i] is Object);
    if flat {
        assert(all_scalar(items)) by {
            assert forall|i: int| 0 <= i < items.len() implies (#[trigger] items[i]).is_scalar() by {
                assert(!(items[i] is Array) && !(items[i] is Object));
            }
        }
        let head = pad + prefix + "["@ + dec(items.len()) + "]"@ + (": "@ + join(texts, ","@));
        assert(array_lines(items, pad, prefix) =~= seq![head]);
    } else {
        assert(!all_scalar(items)) by {
            let i = choose|i: int|
                0 <= i < items.len() && ((#[trigger] items[i]) is Array || items[i] is Object);
            assert(!items[i].is_scalar());
        }
    }
}

/// A field is its name and its value on one line; the fields of an object in it stand below its name, two
/// spaces further in. Fields and items are written one after the other.
pub proof fn fields_are_written(
    key: Seq<char>,
    value: JsonModel,
    fs: Seq<(Seq<char>, JsonModel)>,
    items: Seq<JsonModel>,
    pad: Seq<char>,
)
    ensures
        !(value is Array) && !(value is Object) ==> one_field_lines(key, value, pad) == seq![
            pad + name_text(key) + ": "@ + scalar_text(value),
        ],
        one_field_lines(key, JsonModel::Object(fs), pad) == seq![pad + name_text(key) + ":"@]
            + field_lines(fs, pad + "  "@),
        one_field_lines(key, JsonModel::Array(seq![]), pad) == seq![pad + name_text(key) + ": []"@],
        items.len() > 0 ==> one_field_lines(key, JsonModel::Array(items), pad) == array_lines(
            items,
            pad,
            name_text(key),
        ),
        field_lines(seq![(key, value)] + fs, pad) == one_field_lines(key, value, pad) + field_lines(
            fs,
            pad,
        ),
        list_lines(seq![value] + items, pad) == item_lines(value, pad) + list_lines(items, pad),
        !(value is Array) && !(value is Object) ==> item_lines(value, pad) == seq![
            pad + "- "@ + scalar_text(value),
        ],
        item_lines(JsonModel::Array(seq![]), pad) == seq![pad + "- []"@],
        item_lines(JsonModel::Object(seq![]), pad) == seq![pad + "-"@],
{
    assert((seq![(key, value)] + fs).drop_first() =~= fs);
    assert((seq![value] + items).drop_first() =~= items);
}

/// A whole value: an array without a name, the fields of an object, or a scalar.
pub proof fn values_are_written(value: JsonModel)
    ensures
        value == JsonModel::Array(seq![]) ==> toon_text(value) == "[]"@,
        value is Array && value->Array_0.len() > 0 ==> toon_text(value) == join(
            array_lines(value->Array_0, ""@, ""@),
            "\n"@,
        ),
        value is Object ==> toon_text(value) == join(field_lines(value->Object_0, ""@), "\n"@),
        !(value is Array) && !(value is Object) ==> toon_text(value) == scalar_text(value),
{
}

// ---------------------------------------------------------------------------
// How texts are read
// ---------------------------------------------------------------------------

/// A table has as many rows as its header says; where there are fewer lines, it is refused.
pub proof fn short_tables_are_refused(lines: Seq<Seq<char>>, at: int, columns: Seq<Seq<char>>, n: nat)
    requires
        0 <= at <= lines.len(),
    ensures
        at + n <= lines.len() ==> (read_rows(lines, at, columns, n) matches Ok(r) && r.0.len() == n && r.1
            == at + n),
        at + n > lines.len() ==> read_rows(lines, at, columns, n) == Err::<
            (Seq<JsonModel>, int),
            Seq<char>,
        >("truncated tabular array"@),
    decreases n,
{
    if n > 0 && at < lines.len() {
        short_tables_are_refused(lines, at + 1, columns, (n - 1) as nat);
    }
}

/// A token reads as a word for a constant, as an empty array, as a string between quotes or as a number;
/// anything else is a string, without the white space around it.
pub proof fn tokens_are_read(token: Seq<char>)
    ensures
        ({
            let t = trim(token);
            let quoted = t.len() >= 2 && t[0] == '"' && t.last() == '"';
            let word = t == "true"@ || t == "false"@ || t == "null"@ || t == "[]"@;
            &&& t == "true"@ && !quoted ==> parse_scalar(token) == JsonModel::Bool(true)
            &&& t == "false"@ && !quoted && t != "true"@ ==> parse_scalar(token) == JsonModel::Bool(false)
            &&& quoted ==> parse_scalar(token) == JsonModel::Text(unescape(t.subrange(1, t.len() - 1)))
            &&& !quoted && !word && !numeric_like(t) ==> parse_scalar(token) == JsonModel::Text(t)
            &&& !quoted && !word && numeric_like(t) && parse_integer(t) is Some ==> parse_scalar(token)
                == JsonModel::Int(parse_integer(t)->0)
        }),
{
}

/// The cells of a row become the fields of the columns in their order, each read as a scalar; columns
/// without a cell and cells without a column are left out.
pub proof fn cells_become_fields(
    name: Seq<char>,
    columns: Seq<Seq<char>>,
    cell: Seq<char>,
    row: Seq<Seq<char>>,
    map: Seq<(Seq<char>, JsonModel)>,
)
    ensures
        row_object(seq![name] + columns, seq![cell] + row, map) == row_object(
            columns,
            row,
            with_field(map, name, parse_scalar(cell)),
        ),
        row_object(columns, seq![], map) == map,
        row_object(seq![], row, map) == map,
{
    assert((seq![name] + columns).drop_first() =~= columns);
    assert((seq![cell] + row).drop_first() =~= row);
}

/// Each row of a table is read from its own line, in their sequence.
pub proof fn rows_are_read_line_by_line(lines: Seq<Seq<char>>, at: int, columns: Seq<Seq<char>>, n: nat, i: int)
    requires
        0 <= at,
        at + n <= lines.len(),
        0 <= i < n,
    ensures
        read_rows(lines, at, columns, n) is Ok,
        (read_rows(lines, at, columns, n)->Ok_0).0.len() == n,
        (read_rows(lines, at, columns, n)->Ok_0).0[i] == JsonModel::Object(
            row_object(columns, cells(trim(lines[at + i]), false, seq![]), seq![]),
        ),
    decreases n,
{
    short_tables_are_refused(lines, at, columns, n);
    if i > 0 {
        rows_are_read_line_by_line(lines, at + 1, columns, (n - 1) as nat, i - 1);
        short_tables_are_refused(lines, at + 1, columns, (n - 1) as nat);
        let rest = (read_rows(lines, at + 1, columns, (n - 1) as nat)->Ok_0).0;
        assert((read_rows(lines, at, columns, n)->Ok_0).0[i] == rest[i - 1]);
    } else {
        short_tables_are_refused(lines, at + 1, columns, (n - 1) as nat);
    }
}

/// A comma outside quotes ends a cell, and one between quotes does not.
pub proof fn commas_end_cells(before: Seq<char>, after: Seq<char>, cell: Seq<char>)
    requires
        forall|i: int| 0 <= i < before.len() ==> #[trigger] before[i] != '"' && before[i] != ',',
    ensures
        cells(before, false, cell) == seq![cell + before],
        cells(before + seq![','] + after, false, cell) == seq![cell + before] + cells(
            after,
            false,
            seq![],
        ),
        cells(seq![','] + after, true, cell) == cells(after, true, cell.push(',')),
        cells(seq!['"'] + after, false, cell) == cells(after, true, cell.push('"')),
        cells(seq!['"'] + after, true, cell) == cells(after, false, cell.push('"')),
    decreases before.len(),
{
    let all = before + seq![','] + after;
    assert((seq![','] + after).drop_first() =~= after);
    assert((seq!['"'] + after).drop_first() =~= after);
    if before.len() == 0 {
        assert(all =~= seq![','] + after);
        assert(cell + before =~= cell);
    } else {
        let rest = before.drop_first();
        assert(before[0] != '"' && before[0] != ',');
        assert forall|i: int| 0 <= i < rest.len() implies #[trigger] rest[i] != '"' && rest[i] != ',' by {
            assert(rest[i] == before[i + 1]);
        }
        commas_end_cells(rest, after, cell.push(before[0]));
        assert(all.drop_first() =~= rest + seq![','] + after);
        assert(all[0] == before[0]);
        assert(cell.push(before[0]) + rest =~= cell + before);
    }
}

/// What an escape stands for: a backslash with `n`, `r` or `t` a break, a return or a tab, with `u` and four
/// hexadecimal digits the character of that code, and with any other character that one.
pub proof fn escapes_are_undone(c: char, rest: Seq<char>, hex: Seq<char>)
    requires
        hex.len() == 4,
    ensures
        unescape(seq!['\\', 'n'] + rest) == seq!['\n'] + unescape(rest),
        unescape(seq!['\\', 'r'] + rest) == seq!['\r'] + unescape(rest),
        unescape(seq!['\\', 't'] + rest) == seq!['\t'] + unescape(rest),
        c != 'n' && c != 'r' && c != 't' && c != 'u' ==> unescape(seq!['\\', c] + rest) == seq![c]
            + unescape(rest),
        c != '\\' ==> unescape(seq![c] + rest) == seq![c] + unescape(rest),
        unescape(seq!['\\', 'u'] + hex + rest) == unicode_char(hex) + unescape(rest),
{
    let n = seq!['\\', 'n'] + rest;
    let r = seq!['\\', 'r'] + rest;
    let t = seq!['\\', 't'] + rest;
    let o = seq!['\\', c] + rest;
    let p = seq![c] + rest;
    let u = seq!['\\', 'u'] + hex + rest;
    assert(n[0] == '\\' && n[1] == 'n' && n.skip(2) =~= rest);
    assert(r[0] == '\\' && r[1] == 'r' && r.skip(2) =~= rest);
    assert(t[0] == '\\' && t[1] == 't' && t.skip(2) =~= rest);
    assert(o[0] == '\\' && o[1] == c && o.skip(2) =~= rest);
    assert(p[0] == c && p.drop_first() =~= rest);
    assert(u[0] == '\\' && u[1] == 'u' && u.subrange(2, 6) =~= hex && u.skip(6) =~= rest);
}

/// How an array goes on behind its number: with the columns of a table between braces and a colon, with
/// scalars on the same line, or with items below. Anything else is refused.
pub proof fn array_headers_are_read(
    lines: Seq<Seq<char>>,
    at: int,
    after: Seq<char>,
    n: nat,
    items: Result<(Seq<JsonModel>, int), Seq<char>>,
)
    requires
        after.len() > 0,
    ensures
        ({
            let r = array_step(lines, at, after, n, items);
            let inline = trim(after.skip(1));
            let close = brace_at(after.skip(1));
            &&& after[0] == '{' && close >= after.len() - 1 ==> r == Err::<(JsonModel, int), Seq<char>>(
                "missing '}' in tabular header"@,
            )
            &&& after[0] == '{' && close < after.len() - 1 ==> ({
                let rows = read_rows(lines, at + 1, read_columns(after.skip(1).take(close)), n);
                &&& rows is Ok ==> r == Ok::<(JsonModel, int), Seq<char>>(
                    (JsonModel::Array((rows->Ok_0).0), (rows->Ok_0).1),
                )
                &&& rows is Err ==> r == Err::<(JsonModel, int), Seq<char>>(rows->Err_0)
            })
            &&& after[0] == ':' && inline.len() > 0 ==> r == Ok::<(JsonModel, int), Seq<char>>(
                (
                    JsonModel::Array(
                        Seq::new(
                            cells(inline, false, seq![]).len(),
                            |i: int| parse_scalar(cells(inline, false, seq![])[i]),
                        ),
                    ),
                    at + 1,
                ),
            )
            &&& after[0] == ':' && inline.len() == 0 && items is Ok ==> r == Ok::<
                (JsonModel, int),
                Seq<char>,
            >((JsonModel::Array((items->Ok_0).0), (items->Ok_0).1))
            &&& after[0] == ':' && inline.len() == 0 && items is Err ==> r == Err::<
                (JsonModel, int),
                Seq<char>,
            >(items->Err_0)
            &&& after[0] != '{' && after[0] != ':' ==> r == Err::<(JsonModel, int), Seq<char>>(
                "unrecognized array header suffix: "@ + str_debug(after),
            )
        }),
{
    let inline = trim(after.skip(1));
    let parts = cells(inline, false, seq![]);
    assert(parse_all(parts) =~= Seq::new(parts.len(), |i: int| parse_scalar(parts[i])));
}

/// A line stands one level further in for each two spaces that it starts with.
pub proof fn two_spaces_are_a_level(spaces: Seq<char>, rest: Seq<char>)
    requires
        forall|i: int| 0 <= i < spaces.len() ==> #[trigger] spaces[i] == ' ',
        rest.len() > 0 ==> rest[0] != ' ',
    ensures
        line_level(spaces + rest) == spaces.len() / 2,
{
    lemma_spaces(spaces, rest);
}

proof fn lemma_spaces(spaces: Seq<char>, rest: Seq<char>)
    requires
        forall|i: int| 0 <= i < spaces.len() ==> #[trigger] spaces[i] == ' ',
        rest.len() > 0 ==> rest[0] != ' ',
    ensures
        space_run(spaces + rest) == spaces.len(),
    decreases spaces.len(),
{
    let all = spaces + rest;
    if spaces.len() > 0 {
        let less = spaces.drop_first();
        assert(spaces[0] == ' ');
        assert forall|i: int| 0 <= i < less.len() implies #[trigger] less[i] == ' ' by {
            assert(less[i] == spaces[i + 1]);
        }
        lemma_spaces(less, rest);
        assert(all.drop_first() =~= less + rest);
        assert(all[0] == ' ');
    } else {
        assert(all =~= rest);
    }
}

/// A blank text is an empty object, and a line with a pair of brackets an empty array. A line that is no
/// field is a scalar, and an array without a closing bracket or a number in its header is refused.
pub proof fn whole_texts_are_read(text: Seq<char>, line: Seq<char>)
    requires
        split_lines(text) == seq![line],
    ensures
        trim(line).len() == 0 ==> toon_value(text) == Ok::<JsonModel, Seq<char>>(
            JsonModel::Object(seq![]),
        ),
        trim(line).len() > 0 && trim(line) == "[]"@ ==> toon_value(text) == Ok::<JsonModel, Seq<char>>(
            JsonModel::Array(seq![]),
        ),
        trim(line).len() > 0 && trim(line) != "[]"@ && !first_is(trim_start(line), '[') && is_token(
            trim(line),
        ) ==> toon_value(text) == Ok::<JsonModel, Seq<char>>(parse_scalar(line)),
        trim(line).len() > 0 && first_is(trim_start(line), '[') && !trim(line).contains(']')
            ==> toon_value(text) == Err::<JsonModel, Seq<char>>(
            "missing ']' in array header: "@ + trim(line),
        ),
{
    let header = trim(line);
    lemma_read_header(
        split_lines(text),
        0,
        header,
        0,
        "missing ']' in array header: "@ + header,
        "bad array length in: "@ + header,
    );
    if !header.contains(']') {
        lemma_absent(header, ']');
        reveal_strlit("[]");
        if header == "[]"@ {
            assert(header[1] == ']');
        }
    }
}

} // verus!
