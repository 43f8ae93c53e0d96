//! What [`crate::toon::decode`] gives back of what [`crate::toon::encode`] wrote.
//!
//! TOON is lossless: [`round_trip`] says that every value comes back as it was. Left out are doubles that
//! are whole numbers in the range of the 64-bit integers, which are written, and so read, as integers.
use crate::json::{
    ascending, field, float_plain, is_float_text, lemma_field_at, lemma_with_field_last, well_formed,
    with_field, JsonModel,
};
use crate::text::{
    all_clean, clean, dec, first_is, has_char, index_of, is_digit, is_space, join, lemma_absent,
    lemma_dec, lemma_index_of, lemma_index_of_shift, lemma_join_first, lemma_lines_join,
    lemma_numeric_chars, lemma_signed_dec_numeric, lemma_text_less_irreflexive,
    lemma_text_less_transitive, numeric_char, numeric_like, signed_dec, split_lines, text_less, trim,
    trim_start,
};
use crate::toon::{
    after_name, all_hex, all_scalar, array_header, array_lines, array_suffix, brace_at, cells,
    deeper, escape, escape_char, field_lines, goes_on, has_scalar, hex_digit, hex_digit_value,
    hex_value, is_hex, is_special, is_table, is_token, item_body, item_lines, lemma_read_array,
    lemma_read_field, lemma_read_fields, lemma_read_first_value, lemma_read_header, lemma_read_item,
    lemma_read_items, lemma_read_siblings, lemma_trim_end_keeps_first, line_level, list_lines,
    name_text, name_texts, names, needs_quotes, no_field, no_space, one_field_lines, parse_all,
    parse_hex, parse_integer, parse_scalar, plain_name, quote_end, quoted, quoted_len, read_columns,
    read_field, read_fields, read_header, read_item, read_items, read_length, read_name, read_names,
    read_rows, read_siblings, row_cells, row_object, same_columns, scalar_text, scalar_texts,
    space_run, starts_array, table_rows, toon_text, toon_value, unescape, unicode_char, with_fields,
};
use vstd::prelude::*;

verus! {

// ---------------------------------------------------------------------------
// The values that come back
// ---------------------------------------------------------------------------

/// No double in the value is written as an integer: the plain form of each has a point, or is a whole
/// number beyond the integers of 64 bits. Zero is written as an integer, with or without a sign.
pub open spec fn no_integer_doubles(m: JsonModel) -> bool
    decreases m,
{
    match m {
        JsonModel::Float(t) => float_plain(t) matches Some(p) ==> parse_integer(p) is None && p != "-0"@,
        JsonModel::Array(v) => forall|i: int| 0 <= i < v.len() ==> no_integer_doubles(#[trigger] v[i]),
        JsonModel::Object(v) => forall|i: int| 0 <= i < v.len() ==> no_integer_doubles((#[trigger] v[i]).1),
        _ => true,
    }
}

spec fn kept(m: JsonModel) -> bool {
    well_formed(m) && no_integer_doubles(m)
}

spec fn all_kept(items: Seq<JsonModel>) -> bool {
    forall|i: int| 0 <= i < items.len() ==> kept(#[trigger] items[i])
}

spec fn fields_kept(fs: Seq<(Seq<char>, JsonModel)>) -> bool {
    forall|i: int| 0 <= i < fs.len() ==> kept((#[trigger] fs[i]).1)
}

proof fn lemma_kept_items(items: Seq<JsonModel>)
    requires
        kept(JsonModel::Array(items)),
    ensures
        all_kept(items),
        items.len() <= usize::MAX,
{
    let m = JsonModel::Array(items);
    assert forall|i: int| 0 <= i < items.len() implies kept(#[trigger] items[i]) by {
        assert(well_formed(m->Array_0[i]) && no_integer_doubles(m->Array_0[i]));
    }
}

proof fn lemma_kept_fields(fs: Seq<(Seq<char>, JsonModel)>)
    requires
        kept(JsonModel::Object(fs)),
    ensures
        fields_kept(fs),
        ascending(fs),
{
    let m = JsonModel::Object(fs);
    assert forall|i: int| 0 <= i < fs.len() implies kept((#[trigger] fs[i]).1) by {
        assert(well_formed(m->Object_0[i].1) && no_integer_doubles(m->Object_0[i].1));
    }
}

// ---------------------------------------------------------------------------
// Literals, trimming, padding
// ---------------------------------------------------------------------------

proof fn lemma_literals()
    ensures
        ""@ == Seq::<char>::empty(),
        "["@ == seq!['['],
        "]"@ == seq![']'],
        ":"@ == seq![':'],
        ": "@ == seq![':', ' '],
        ","@ == seq![','],
        "{"@ == seq!['{'],
        "}:"@ == seq!['}', ':'],
        "-"@ == seq!['-'],
        "- "@ == seq!['-', ' '],
        "\n"@ == seq!['\n'],
        "  "@ == seq![' ', ' '],
        "[]"@ == seq!['[', ']'],
        ": []"@ == seq![':', ' ', '[', ']'],
        "null"@ == seq!['n', 'u', 'l', 'l'],
        "true"@ == seq!['t', 'r', 'u', 'e'],
        "false"@ == seq!['f', 'a', 'l', 's', 'e'],
        "- []"@ == seq!['-', ' ', '[', ']'],
        "-0"@ == seq!['-', '0'],
{
    reveal_strlit("");
    reveal_strlit("[");
    reveal_strlit("]");
    reveal_strlit(":");
    reveal_strlit(": ");
    reveal_strlit(",");
    reveal_strlit("{");
    reveal_strlit("}:");
    reveal_strlit("-");
    reveal_strlit("- ");
    reveal_strlit("\n");
    reveal_strlit("  ");
    reveal_strlit("[]");
    reveal_strlit(": []");
    reveal_strlit("null");
    reveal_strlit("true");
    reveal_strlit("false");
    assert(""@ =~= Seq::<char>::empty());
    assert("["@ =~= seq!['[']);
    assert("]"@ =~= seq![']']);
    assert(":"@ =~= seq![':']);
    assert(": "@ =~= seq![':', ' ']);
    assert(","@ =~= seq![',']);
    assert("{"@ =~= seq!['{']);
    assert("}:"@ =~= seq!['}', ':']);
    assert("-"@ =~= seq!['-']);
    assert("- "@ =~= seq!['-', ' ']);
    assert("\n"@ =~= seq!['\n']);
    assert("  "@ =~= seq![' ', ' ']);
    assert("[]"@ =~= seq!['[', ']']);
    assert(": []"@ =~= seq![':', ' ', '[', ']']);
    assert("null"@ =~= seq!['n', 'u', 'l', 'l']);
    assert("true"@ =~= seq!['t', 'r', 'u', 'e']);
    assert("false"@ =~= seq!['f', 'a', 'l', 's', 'e']);
    reveal_strlit("- []");
    assert("- []"@ =~= seq!['-', ' ', '[', ']']);
    reveal_strlit("-0");
    assert("-0"@ =~= seq!['-', '0']);
}

/// Not empty, and with no white space at its ends.
spec fn tight(t: Seq<char>) -> bool {
    t.len() > 0 && !is_space(t[0]) && !is_space(t.last())
}

spec fn spaces(n: nat) -> Seq<char> {
    Seq::new(n, |i: int| ' ')
}

/// The padding of a level.
spec fn padding(n: nat) -> Seq<char> {
    spaces(2 * n)
}

proof fn lemma_deeper(n: nat)
    ensures
        deeper(padding(n)) == padding(n + 1),
        padding(0) == ""@,
{
    lemma_literals();
    assert(deeper(padding(n)) =~= padding(n + 1));
    assert(padding(0) =~= ""@);
}

proof fn lemma_trim_start_spaces(n: nat, t: Seq<char>)
    ensures
        trim_start(spaces(n) + t) == trim_start(t),
    decreases n,
{
    if n == 0 {
        assert(spaces(n) + t =~= t);
    } else {
        let s = spaces(n) + t;
        assert(s[0] == ' ');
        assert(s.drop_first() =~= spaces((n - 1) as nat) + t);
        lemma_trim_start_spaces((n - 1) as nat, t);
    }
}

proof fn lemma_trim_spaces(n: nat, t: Seq<char>)
    requires
        tight(t),
    ensures
        trim(spaces(n) + t) == t,
        trim_start(spaces(n) + t) == t,
{
    lemma_trim_start_spaces(n, t);
}

proof fn lemma_trim_one_space(t: Seq<char>)
    requires
        tight(t),
    ensures
        trim(seq![' '] + t) == t,
{
    assert(spaces(1) =~= seq![' ']);
    lemma_trim_spaces(1, t);
}

proof fn lemma_space_run(n: nat, t: Seq<char>)
    requires
        !first_is(t, ' '),
    ensures
        space_run(spaces(n) + t) == n,
    decreases n,
{
    let s = spaces(n) + t;
    if n == 0 {
        assert(s =~= t);
    } else {
        assert(s[0] == ' ');
        assert(s.drop_first() =~= spaces((n - 1) as nat) + t);
        lemma_space_run((n - 1) as nat, t);
    }
}

/// A line of a level with a text that does not start with white space.
proof fn lemma_line(n: nat, t: Seq<char>)
    requires
        t.len() > 0,
        !is_space(t[0]),
    ensures
        line_level(padding(n) + t) == n,
        trim_start(padding(n) + t) == t,
        trim(padding(n) + t).len() > 0,
{
    lemma_space_run(2 * n, t);
    lemma_trim_start_spaces(2 * n, t);
    lemma_trim_end_keeps_first(t);
}

// ---------------------------------------------------------------------------
// Joining
// ---------------------------------------------------------------------------

/// A token that splitting at commas keeps whole.
spec fn whole(t: Seq<char>) -> bool {
    forall|rest: Seq<char>, cell: Seq<char>| #[trigger]
        cells(t + rest, false, cell) == cells(rest, false, cell + t)
}

proof fn lemma_cells_join(toks: Seq<Seq<char>>)
    requires
        toks.len() > 0,
        forall|i: int| 0 <= i < toks.len() ==> whole(#[trigger] toks[i]),
    ensures
        cells(join(toks, ","@), false, seq![]) == toks,
    decreases toks.len(),
{
    lemma_literals();
    let none = Seq::<char>::empty();
    assert(whole(toks[0]));
    if toks.len() == 1 {
        assert(toks[0] + none =~= toks[0]);
        assert(cells(toks[0] + none, false, none) == cells(none, false, none + toks[0]));
        assert(none + toks[0] =~= toks[0]);
        assert(cells(none, false, toks[0]) =~= toks);
    } else {
        let rest = toks.drop_first();
        lemma_join_first(toks, ","@);
        assert forall|i: int| 0 <= i < rest.len() implies whole(#[trigger] rest[i]) by {
            assert(rest[i] == toks[i + 1]);
        }
        lemma_cells_join(rest);
        let tail = ","@ + join(rest, ","@);
        assert(join(toks, ","@) =~= toks[0] + tail);
        assert(cells(toks[0] + tail, false, none) == cells(tail, false, none + toks[0]));
        assert(none + toks[0] =~= toks[0]);
        assert(tail[0] == ',');
        assert(tail.drop_first() =~= join(rest, ","@));
        assert(cells(tail, false, toks[0]) == seq![toks[0]] + rest);
        assert(seq![toks[0]] + rest =~= toks);
    }
}

/// Tight texts joined by commas are tight.
proof fn lemma_join_tight(toks: Seq<Seq<char>>)
    requires
        toks.len() > 0,
        forall|i: int| 0 <= i < toks.len() ==> tight(#[trigger] toks[i]) && !has_char(toks[i], '\n'),
    ensures
        tight(join(toks, ","@)),
        !has_char(join(toks, ","@), '\n'),
    decreases toks.len(),
{
    lemma_literals();
    assert(tight(toks[0]));
    if toks.len() > 1 {
        let rest = toks.drop_first();
        assert forall|i: int| 0 <= i < rest.len() implies tight(#[trigger] rest[i]) && !has_char(
            rest[i],
            '\n',
        ) by {
            assert(rest[i] == toks[i + 1]);
        }
        lemma_join_tight(rest);
        lemma_join_first(toks, ","@);
        let s = join(toks, ","@);
        let r = join(rest, ","@);
        assert(s =~= toks[0] + ","@ + r);
        assert(s[0] == toks[0][0]);
        assert(s.last() == r.last());
        if s.contains('\n') {
            let j = choose|j: int| 0 <= j < s.len() && s[j] == '\n';
            if j < toks[0].len() {
                assert(toks[0].contains(toks[0][j]));
            } else if j > toks[0].len() {
                assert(r.contains(r[j - toks[0].len() - 1]));
            }
        }
    }
}

// ---------------------------------------------------------------------------
// Tokens
// ---------------------------------------------------------------------------

/// No quote, comma or backslash.
spec fn bland(t: Seq<char>) -> bool {
    !has_char(t, '"') && !has_char(t, ',') && !has_char(t, '\\')
}

proof fn lemma_bland_whole_at(t: Seq<char>, rest: Seq<char>, cell: Seq<char>)
    requires
        bland(t),
    ensures
        cells(t + rest, false, cell) == cells(rest, false, cell + t),
    decreases t.len(),
{
    let s = t + rest;
    if t.len() == 0 {
        assert(s =~= rest);
        assert(cell + t =~= cell);
    } else {
        assert(t.contains(t[0]));
        assert(s[0] == t[0]);
        let u = t.drop_first();
        assert(s.drop_first() =~= u + rest);
        assert forall|c: char| !has_char(t, c) implies !has_char(u, c) by {
            if u.contains(c) {
                let j = choose|j: int| 0 <= j < u.len() && u[j] == c;
                assert(t[j + 1] == c);
            }
        }
        lemma_bland_whole_at(u, rest, cell.push(t[0]));
        assert(cell.push(t[0]) + u =~= cell + t);
    }
}

proof fn lemma_bland_whole(t: Seq<char>)
    requires
        bland(t),
    ensures
        whole(t),
{
    assert forall|rest: Seq<char>, cell: Seq<char>| #[trigger]
        cells(t + rest, false, cell) == cells(rest, false, cell + t) by {
        lemma_bland_whole_at(t, rest, cell);
    }
}

proof fn lemma_hex_digit(d: int)
    requires
        0 <= d < 16,
    ensures
        is_hex(hex_digit(d)),
        hex_digit_value(hex_digit(d)) == d,
{
    if d < 10 {
        assert((48 + d) as char as int == 48 + d);
    } else {
        assert((87 + d) as char as int == 87 + d);
    }
}

/// The two hexadecimal digits of a control character.
proof fn lemma_control_digits(c: char)
    requires
        c <= '\u{1f}',
    ensures
        is_hex(hex_digit(c as int / 16)),
        is_hex(hex_digit(c as int % 16)),
        16 * hex_digit_value(hex_digit(c as int / 16)) + hex_digit_value(hex_digit(c as int % 16)) == c as int,
{
    lemma_hex_digit(c as int / 16);
    lemma_hex_digit(c as int % 16);
}

proof fn lemma_escape_cells(s: Seq<char>, rest: Seq<char>, cell: Seq<char>)
    ensures
        cells(escape(s) + rest, true, cell) == cells(rest, true, cell + escape(s)),
    decreases s.len(),
{
    if s.len() == 0 {
        assert(escape(s) + rest =~= rest);
        assert(cell + escape(s) =~= cell);
    } else {
        let c = s[0];
        let e = escape_char(c);
        let tail = escape(s.drop_first()) + rest;
        let all = escape(s) + rest;
        assert(all =~= e + tail);
        lemma_escape_cells(s.drop_first(), rest, cell + e);
        assert((cell + e) + escape(s.drop_first()) =~= cell + escape(s));
        if e.len() == 1 {
            assert(all[0] == c);
            assert(all.drop_first() =~= tail);
            assert(cell.push(c) =~= cell + e);
        } else {
            assert(all[0] == '\\');
            assert(all[1] == e[1]);
            assert(cell.push('\\').push(e[1]) =~= cell + e.take(2));
            if e.len() == 2 {
                assert(all.skip(2) =~= tail);
                assert(e.take(2) =~= e);
            } else {
                let four = e.skip(2);
                lemma_control_digits(c);
                assert(bland(four)) by {
                    assert forall|x: char| x == '"' || x == ',' || x == '\\' implies !four.contains(x) by {
                        assert(four.len() == 4);
                        assert(four[0] == '0' && four[1] == '0');
                    }
                }
                assert(all.skip(2) =~= four + tail);
                lemma_quoted_run(four, tail, cell + e.take(2));
                assert((cell + e.take(2)) + four =~= cell + e);
            }
        }
    }
}

/// Inside quotes too, characters that are neither quote nor backslash are kept.
proof fn lemma_quoted_run(t: Seq<char>, rest: Seq<char>, cell: Seq<char>)
    requires
        !has_char(t, '"'),
        !has_char(t, '\\'),
    ensures
        cells(t + rest, true, cell) == cells(rest, true, cell + t),
    decreases t.len(),
{
    let s = t + rest;
    if t.len() == 0 {
        assert(s =~= rest);
        assert(cell + t =~= cell);
    } else {
        assert(t.contains(t[0]));
        assert(s[0] == t[0]);
        let u = t.drop_first();
        assert(s.drop_first() =~= u + rest);
        assert forall|c: char| !has_char(t, c) implies !has_char(u, c) by {
            if u.contains(c) {
                let j = choose|j: int| 0 <= j < u.len() && u[j] == c;
                assert(t[j + 1] == c);
            }
        }
        lemma_quoted_run(u, rest, cell.push(t[0]));
        assert(cell.push(t[0]) + u =~= cell + t);
    }
}

proof fn lemma_quoted_whole(s: Seq<char>)
    ensures
        whole(quoted(s)),
{
    let t = quoted(s);
    assert forall|rest: Seq<char>, cell: Seq<char>| #[trigger]
        cells(t + rest, false, cell) == cells(rest, false, cell + t) by {
        let all = t + rest;
        let tail = seq!['"'] + rest;
        assert(all[0] == '"');
        assert(all.drop_first() =~= escape(s) + tail);
        lemma_escape_cells(s, tail, cell.push('"'));
        assert(tail[0] == '"');
        assert(tail.drop_first() =~= rest);
        assert((cell.push('"') + escape(s)).push('"') =~= cell + t);
    }
}

proof fn lemma_unescape(s: Seq<char>)
    ensures
        unescape(escape(s)) == s,
    decreases s.len(),
{
    if s.len() == 0 {
        assert(escape(s) =~= Seq::<char>::empty());
        assert(unescape(escape(s)) =~= s);
    } else {
        let c = s[0];
        let e = escape_char(c);
        let tail = escape(s.drop_first());
        let all = escape(s);
        assert(all =~= e + tail);
        lemma_unescape(s.drop_first());
        if e.len() == 1 {
            assert(all[0] == c && c != '\\');
            assert(all.drop_first() =~= tail);
        } else if e.len() == 2 {
            assert(all[0] == '\\' && all[1] == e[1]);
            assert(all.skip(2) =~= tail);
        } else {
            assert(all[0] == '\\' && all[1] == 'u');
            lemma_control_digits(c);
            let hex = all.subrange(2, 6);
            assert(hex =~= seq!['0', '0', hex_digit(c as int / 16), hex_digit(c as int % 16)]);
            assert(all.skip(6) =~= tail);
            let h1 = hex.drop_last();
            let h2 = h1.drop_last();
            let h3 = h2.drop_last();
            assert(h3.drop_last() =~= Seq::<char>::empty());
            assert(hex_value(h3.drop_last()) == 0);
            assert(hex_value(h3) == 0);
            assert(hex_value(h2) == 0);
            assert(hex_value(h1) == hex_digit_value(hex_digit(c as int / 16)));
            assert(hex_value(hex) == c as int);
            assert(all_hex(hex));
            assert(parse_hex(hex) == Some(c as int));
            assert(unicode_char(hex) == seq![(c as int) as char]);
        }
        assert(unescape(all) =~= seq![c] + s.drop_first());
        assert(seq![c] + s.drop_first() =~= s);
    }
}

proof fn lemma_escape_no_newline(s: Seq<char>)
    ensures
        !has_char(escape(s), '\n'),
    decreases s.len(),
{
    if s.len() > 0 {
        let rest = s.drop_first();
        let e = escape_char(s[0]);
        lemma_escape_no_newline(rest);
        let all = escape(s);
        assert(all =~= e + escape(rest));
        if s[0] <= '\u{1f}' {
            lemma_control_digits(s[0]);
        }
        if all.contains('\n') {
            let j = choose|j: int| 0 <= j < all.len() && all[j] == '\n';
            if j < e.len() {
                assert(e[j] == '\n');
            } else {
                assert(escape(rest).contains(escape(rest)[j - e.len()]));
            }
        }
    }
}

/// Characters that are neither quote nor backslash do not end a quoted string.
proof fn lemma_quote_end_run(t: Seq<char>, rest: Seq<char>)
    requires
        !has_char(t, '"'),
        !has_char(t, '\\'),
    ensures
        quote_end(t + rest) == t.len() + quote_end(rest),
    decreases t.len(),
{
    let s = t + rest;
    if t.len() == 0 {
        assert(s =~= rest);
    } else {
        assert(t.contains(t[0]));
        assert(s[0] == t[0]);
        let u = t.drop_first();
        assert(s.drop_first() =~= u + rest);
        assert forall|c: char| !has_char(t, c) implies !has_char(u, c) by {
            if u.contains(c) {
                let j = choose|j: int| 0 <= j < u.len() && u[j] == c;
                assert(t[j + 1] == c);
            }
        }
        lemma_quote_end_run(u, rest);
    }
}

/// An escaped string does not end a quoted string.
proof fn lemma_quote_end_escape(s: Seq<char>, rest: Seq<char>)
    ensures
        quote_end(escape(s) + rest) == escape(s).len() + quote_end(rest),
    decreases s.len(),
{
    if s.len() == 0 {
        assert(escape(s) + rest =~= rest);
    } else {
        let c = s[0];
        let e = escape_char(c);
        let tail = escape(s.drop_first()) + rest;
        let all = escape(s) + rest;
        assert(all =~= e + tail);
        lemma_quote_end_escape(s.drop_first(), rest);
        if e.len() == 1 {
            assert(all[0] == c);
            assert(all.drop_first() =~= tail);
        } else {
            assert(all[0] == '\\');
            let four = e.skip(2);
            assert(all.skip(2) =~= four + tail);
            if e.len() == 2 {
                assert(four =~= Seq::<char>::empty());
            } else {
                lemma_control_digits(c);
                assert(four.len() == 4 && four[0] == '0' && four[1] == '0');
            }
            lemma_quote_end_run(four, tail);
        }
    }
}

/// A quoted string at the start of a text is found whole.
proof fn lemma_quoted_len(s: Seq<char>, rest: Seq<char>)
    ensures
        quoted_len(quoted(s) + rest) == quoted(s).len(),
        (quoted(s) + rest).skip(quoted(s).len() as int) == rest,
{
    let all = quoted(s) + rest;
    assert(all[0] == '"');
    let tail = seq!['"'] + rest;
    assert(all.drop_first() =~= escape(s) + tail);
    lemma_quote_end_escape(s, tail);
    assert(tail[0] == '"');
    assert(all.skip(quoted(s).len() as int) =~= rest);
}

/// What is needed of the text of a scalar.
spec fn good_token(t: Seq<char>) -> bool {
    tight(t) && whole(t) && !has_char(t, '\n') && t[0] != '[' && is_token(t)
}

/// A text without quotes, colons and brackets is a token.
proof fn lemma_is_token(t: Seq<char>)
    requires
        !has_char(t, '"'),
        !has_char(t, ':'),
        !has_char(t, '['),
    ensures
        is_token(t),
{
    if t.len() > 0 {
        assert(t.contains(t[0]));
    }
    assert(t.skip(0) =~= t);
    lemma_absent(t, ':');
    lemma_absent(t, '[');
}

proof fn lemma_numeric_token(t: Seq<char>)
    requires
        t.len() > 0,
        forall|i: int| 0 <= i < t.len() ==> numeric_char(#[trigger] t[i]),
    ensures
        good_token(t),
{
    assert(numeric_char(t[0]));
    assert(numeric_char(t[t.len() - 1]));
    assert(bland(t));
    lemma_bland_whole(t);
    lemma_is_token(t);
}

proof fn lemma_signed_dec(n: int)
    requires
        i64::MIN <= n <= u64::MAX,
    ensures
        parse_scalar(signed_dec(n)) == JsonModel::Int(n),
        good_token(signed_dec(n)),
{
    let t = signed_dec(n);
    let digits = if n < 0 {
        dec((-n) as nat)
    } else {
        dec(n as nat)
    };
    if n < 0 {
        lemma_dec((-n) as nat);
    } else {
        lemma_dec(n as nat);
    }
    lemma_literals();
    lemma_signed_dec_numeric(n);
    assert(is_digit(digits[0]));
    assert(n < 0 ==> t.skip(1) =~= digits);
    lemma_numeric_chars(t);
    lemma_numeric_token(t);
    assert(trim(t) == t);
    assert forall|c: char| c == '.' || c == 'e' || c == 'E' implies !has_char(t, c) by {
        if t.contains(c) {
            let j = choose|j: int| 0 <= j < t.len() && t[j] == c;
            if n < 0 {
                if j > 0 {
                    assert(digits[j - 1] == c);
                }
            } else {
                assert(digits[j] == c);
            }
        }
    }
    assert(t[0] != '"' && t[0] != 't' && t[0] != 'f' && t[0] != 'n' && t[0] != '[');
    assert(t != "true"@ && t != "false"@ && t != "null"@ && t != "[]"@);
}

/// A number that is no integer of 64 bits reads as a double.
proof fn lemma_float_token(t: Seq<char>)
    requires
        numeric_like(t),
        parse_integer(t) is None,
    ensures
        good_token(t),
        crate::json::float_shortest(t) matches Some(f) ==> parse_scalar(t) == JsonModel::Float(f),
{
    lemma_literals();
    lemma_numeric_chars(t);
    lemma_numeric_token(t);
    assert(trim(t) == t);
    assert(numeric_char(t[0]));
    assert(t[0] != '"' && t[0] != 't' && t[0] != 'f' && t[0] != 'n' && t[0] != '[');
    assert(t != "true"@ && t != "false"@ && t != "null"@ && t != "[]"@);
}

/// The text of a double is a number.
proof fn lemma_float_whole(t: Seq<char>)
    requires
        is_float_text(t),
    ensures
        whole(scalar_text(JsonModel::Float(t))),
{
    let text = scalar_text(JsonModel::Float(t));
    reveal_strlit("0");
    if text == "0"@ {
        assert(bland(text));
        lemma_bland_whole(text);
    } else {
        assert(numeric_like(text));
        lemma_numeric_chars(text);
        lemma_numeric_token(text);
    }
}

/// The text of a scalar is one token and reads back as it.
proof fn lemma_token(m: JsonModel)
    requires
        m.is_scalar(),
        kept(m),
    ensures
        good_token(scalar_text(m)),
        parse_scalar(scalar_text(m)) == m,
{
    lemma_literals();
    let t = scalar_text(m);
    match m {
        JsonModel::Null => {
            assert(bland(t));
            lemma_bland_whole(t);
            lemma_is_token(t);
            assert(trim(t) == t);
        },
        JsonModel::Bool(b) => {
            assert(bland(t));
            lemma_bland_whole(t);
            lemma_is_token(t);
            assert(trim(t) == t);
        },
        JsonModel::Int(n) => {
            lemma_signed_dec(n);
        },
        JsonModel::Float(f) => {
            assert(is_float_text(f));
            assert(!has_char("-0"@, '.'));
            lemma_float_token(t);
        },
        JsonModel::Text(s) => {
            lemma_escape_no_newline(s);
            if needs_quotes(s) {
                lemma_quoted_whole(s);
                lemma_unescape(s);
                assert(t[0] == '"' && t.last() == '"' && t.len() >= 2);
                assert(trim(t) == t);
                assert(t.subrange(1, t.len() - 1) =~= escape(s));
                let none = Seq::<char>::empty();
                assert(t + none =~= t);
                lemma_quoted_len(s, none);
                assert(is_token(t));
                if t.contains('\n') {
                    let j = choose|j: int| 0 <= j < t.len() && t[j] == '\n';
                    assert(escape(s)[j - 1] == '\n');
                }
            } else {
                assert forall|i: int| 0 <= i < s.len() implies !is_special(#[trigger] s[i]) && s[i]
                    > '\u{1f}' by {}
                assert(bland(s));
                lemma_bland_whole(s);
                lemma_is_token(s);
                assert(tight(s));
                assert(trim(s) == s);
                assert(s != "[]"@) by {
                    if s == "[]"@ {
                        assert(is_special(s[0]));
                    }
                }
                assert(s[0] != '[' && s[0] != '"');
            }
        },
        _ => {},
    }
}

// ---------------------------------------------------------------------------
// Names
// ---------------------------------------------------------------------------

/// The text of a name is one token, with no white space at its ends.
proof fn lemma_name(key: Seq<char>)
    ensures
        tight(name_text(key)),
        whole(name_text(key)),
        !has_char(name_text(key), '\n'),
        name_text(key)[0] != '-',
        name_text(key)[0] != '[',
        read_name(name_text(key)) == key,
{
    let t = name_text(key);
    if plain_name(key) {
        assert(bland(key));
        lemma_bland_whole(key);
        assert(!is_special(key[0]));
    } else {
        lemma_quoted_whole(key);
        lemma_unescape(key);
        lemma_escape_no_newline(key);
        assert(t.subrange(1, t.len() - 1) =~= escape(key));
        if t.contains('\n') {
            let j = choose|j: int| 0 <= j < t.len() && t[j] == '\n';
            assert(escape(key)[j - 1] == '\n');
        }
    }
}

/// Colons and brackets are looked for behind the name.
proof fn lemma_after_name(key: Seq<char>, tail: Seq<char>, c: char)
    requires
        c == ':' || c == '[',
    ensures
        after_name(name_text(key) + tail, c) == name_text(key).len() + index_of(tail, c),
        read_name((name_text(key) + tail).take(name_text(key).len() as int)) == key,
        (name_text(key) + tail).skip(name_text(key).len() as int) == tail,
{
    let t = name_text(key);
    let all = t + tail;
    lemma_name(key);
    assert(all.take(t.len() as int) =~= t);
    assert(all.skip(t.len() as int) =~= tail);
    if plain_name(key) {
        assert(all[0] == key[0]);
        assert(!is_special(key[0]));
        assert(all.skip(0) =~= all);
        assert(!has_char(key, c));
        lemma_index_of_shift(key, tail, c);
    } else {
        lemma_quoted_len(key, tail);
    }
}

proof fn lemma_brace_run(t: Seq<char>, rest: Seq<char>)
    requires
        !has_char(t, '"'),
        !has_char(t, '}'),
    ensures
        brace_at(t + rest) == t.len() + brace_at(rest),
    decreases t.len(),
{
    let s = t + rest;
    if t.len() == 0 {
        assert(s =~= rest);
    } else {
        assert(t.contains(t[0]));
        assert(s[0] == t[0]);
        let u = t.drop_first();
        assert(s.drop_first() =~= u + rest);
        assert forall|c: char| !has_char(t, c) implies !has_char(u, c) by {
            if u.contains(c) {
                let j = choose|j: int| 0 <= j < u.len() && u[j] == c;
                assert(t[j + 1] == c);
            }
        }
        lemma_brace_run(u, rest);
    }
}

/// A closing brace is looked for behind the names.
proof fn lemma_brace_names(keys: Seq<Seq<char>>, rest: Seq<char>)
    ensures
        brace_at(join(name_texts(keys), ","@) + rest) == join(name_texts(keys), ","@).len() + brace_at(
            rest,
        ),
    decreases keys.len(),
{
    lemma_literals();
    let parts = name_texts(keys);
    if keys.len() == 0 {
        assert(join(parts, ","@) + rest =~= rest);
    } else {
        let tail = if keys.len() == 1 {
            rest
        } else {
            ","@ + (join(name_texts(keys.drop_first()), ","@) + rest)
        };
        let key = keys[0];
        let all = join(parts, ","@) + rest;
        if keys.len() > 1 {
            lemma_join_first(parts, ","@);
            assert(parts.drop_first() =~= name_texts(keys.drop_first()));
            lemma_brace_names(keys.drop_first(), rest);
            lemma_brace_run(","@, join(name_texts(keys.drop_first()), ","@) + rest);
        }
        assert(all =~= name_text(key) + tail);
        if plain_name(key) {
            assert forall|c: char| c == '"' || c == '}' implies !has_char(key, c) by {
                if key.contains(c) {
                    let j = choose|j: int| 0 <= j < key.len() && key[j] == c;
                    assert(is_special(key[j]));
                }
            }
            lemma_brace_run(key, tail);
        } else {
            lemma_quoted_len(key, tail);
            assert(all[0] == '"');
        }
    }
}

// ---------------------------------------------------------------------------
// Lines that an encoding takes
// ---------------------------------------------------------------------------

/// The lines from `at` on start with `block`.
spec fn holds_at(lines: Seq<Seq<char>>, at: int, block: Seq<Seq<char>>) -> bool {
    0 <= at && at + block.len() <= lines.len() && lines.subrange(at, at + block.len()) == block
}

/// The lines end at `at`, or the line there is on a level above `level`.
spec fn above(lines: Seq<Seq<char>>, at: int, level: int) -> bool {
    at >= lines.len() || line_level(lines[at]) < level
}

proof fn lemma_holds_parts(
    lines: Seq<Seq<char>>,
    at: int,
    a: Seq<Seq<char>>,
    b: Seq<Seq<char>>,
)
    requires
        holds_at(lines, at, a + b),
    ensures
        holds_at(lines, at, a),
        holds_at(lines, at + a.len(), b),
{
    let n = (a + b).len() as int;
    let block = lines.subrange(at, at + n);
    assert(lines.subrange(at, at + a.len()) =~= block.subrange(0, a.len() as int));
    assert((a + b).subrange(0, a.len() as int) =~= a);
    assert(lines.subrange(at + a.len(), at + a.len() + b.len()) =~= block.subrange(a.len() as int, n));
    assert((a + b).subrange(a.len() as int, n) =~= b);
}

proof fn lemma_holds_line(lines: Seq<Seq<char>>, at: int, block: Seq<Seq<char>>, i: int)
    requires
        holds_at(lines, at, block),
        0 <= i < block.len(),
    ensures
        0 <= at + i < lines.len(),
        lines[at + i] == block[i],
{
    assert(lines.subrange(at, at + block.len())[i] == lines[at + i]);
}

/// The part of an array header from the opening bracket on.
spec fn header_tail(items: Seq<JsonModel>) -> Seq<char> {
    "["@ + dec(items.len()) + "]"@ + array_suffix(items)
}

/// The lines of an array below its header.
spec fn below_header(items: Seq<JsonModel>, pad: Seq<char>) -> Seq<Seq<char>> {
    if is_table(items) {
        table_rows(pad, names(items[0]->Object_0), items)
    } else if all_scalar(items) {
        seq![]
    } else {
        list_lines(items, deeper(pad))
    }
}

proof fn lemma_array_lines(items: Seq<JsonModel>, pad: Seq<char>, prefix: Seq<char>)
    ensures
        array_lines(items, pad, prefix) == seq![pad + (prefix + header_tail(items))] + below_header(
            items,
            pad,
        ),
{
    assert(array_header(pad, prefix, items) =~= pad + (prefix + header_tail(items)));
}

proof fn lemma_header_tail(items: Seq<JsonModel>)
    ensures
        index_of(header_tail(items), '[') == 0,
        index_of(header_tail(items), ':') < header_tail(items).len(),
        header_tail(items).len() > 0,
        header_tail(items)[0] == '[',
        index_of(header_tail(items), ']') == 1 + dec(items.len()).len(),
        index_of(header_tail(items), ']') < header_tail(items).len(),
        header_tail(items).subrange(1, 1 + dec(items.len()).len() as int) == dec(items.len()),
        header_tail(items).skip(2 + dec(items.len()).len() as int) == array_suffix(items),
        has_char(header_tail(items), ':'),
        index_of(header_tail(items), ':') > 0,
{
    lemma_literals();
    lemma_dec(items.len());
    let d = dec(items.len());
    let h = header_tail(items);
    let front = "["@ + d;
    let back = "]"@ + array_suffix(items);
    assert(h =~= front + back);
    assert(!has_char(front, ']')) by {
        if front.contains(']') {
            let j = choose|j: int| 0 <= j < front.len() && front[j] == ']';
            assert(is_digit(d[j - 1]));
        }
    }
    lemma_index_of_shift(front, back, ']');
    assert(back[0] == ']');
    assert(index_of(back, ']') == 0);
    assert(h.subrange(1, 1 + d.len() as int) =~= d);
    assert(h.skip(2 + d.len() as int) =~= array_suffix(items));
    let s = array_suffix(items);
    if is_table(items) {
        assert(s.last() == ':');
        assert(h.last() == ':');
    } else {
        assert(s[0] == ':');
        assert(h[2 + d.len() as int] == ':');
    }
    lemma_index_of(h, ':');
}

// ---------------------------------------------------------------------------
// Tables
// ---------------------------------------------------------------------------

spec fn increasing(ns: Seq<Seq<char>>) -> bool {
    forall|i: int, j: int| 0 <= i < j < ns.len() ==> text_less(#[trigger] ns[i], #[trigger] ns[j])
}

/// Two increasing sequences of the same length, one of which holds all of the other, are the same.
proof fn lemma_same_names(a: Seq<Seq<char>>, b: Seq<Seq<char>>)
    requires
        increasing(a),
        increasing(b),
        a.len() == b.len(),
        forall|i: int| 0 <= i < a.len() ==> b.contains(#[trigger] a[i]),
    ensures
        a == b,
    decreases a.len(),
{
    if a.len() > 0 {
        let n = a.len() - 1;
        let j = choose|j: int| 0 <= j < b.len() && b[j] == a[n];
        let k = choose|k: int| 0 <= k < b.len() && b[k] == a[0];
        assert(b.contains(a[n]));
        let a1 = a.drop_last();
        let b1 = b.drop_last();
        assert(increasing(a1)) by {
            assert forall|x: int, y: int| 0 <= x < y < a1.len() implies text_less(
                #[trigger] a1[x],
                #[trigger] a1[y],
            ) by {
                assert(a1[x] == a[x] && a1[y] == a[y]);
            }
        }
        assert(increasing(b1)) by {
            assert forall|x: int, y: int| 0 <= x < y < b1.len() implies text_less(
                #[trigger] b1[x],
                #[trigger] b1[y],
            ) by {
                assert(b1[x] == b[x] && b1[y] == b[y]);
            }
        }
        // Every name of `a` but the last comes before `a[n]`, so none of them is the last of `b`.
        assert forall|i: int| 0 <= i < a1.len() implies b1.contains(#[trigger] a1[i]) by {
            assert(a1[i] == a[i]);
            assert(b.contains(a[i]));
            let x = choose|x: int| 0 <= x < b.len() && b[x] == a[i];
            if x == n {
                assert(text_less(a[i], a[n]));
                if j < n {
                    assert(text_less(b[j], b[n]));
                    lemma_text_less_transitive(a[n], a[i], a[n]);
                    lemma_text_less_irreflexive(a[n]);
                } else {
                    lemma_text_less_irreflexive(a[n]);
                }
            }
            assert(b1[x] == a1[i]);
        }
        lemma_same_names(a1, b1);
        if j < n {
            assert(b1[j] == a[n]);
            assert(a1[j] == a[n]);
            assert(text_less(a[j], a[n]));
            lemma_text_less_irreflexive(a[n]);
        }
        assert(a =~= a1.push(a[n]));
        assert(b =~= b1.push(b[n]));
    } else {
        assert(a =~= b);
    }
}

proof fn lemma_ascending_names(fs: Seq<(Seq<char>, JsonModel)>)
    requires
        ascending(fs),
    ensures
        increasing(names(fs)),
{
    let ns = names(fs);
    assert forall|i: int, j: int| 0 <= i < j < ns.len() implies text_less(#[trigger] ns[i], #[trigger] ns[j]) by {
        assert(text_less(fs[i].0, fs[j].0));
    }
}

/// The field at `k` of ascending fields is the one that its name finds.
proof fn lemma_field_of_ascending(fs: Seq<(Seq<char>, JsonModel)>, k: int)
    requires
        ascending(fs),
        0 <= k < fs.len(),
    ensures
        field(fs, fs[k].0) == Some(fs[k].1),
{
    assert forall|j: int| 0 <= j < k implies (#[trigger] fs[j]).0 != fs[k].0 by {
        assert(text_less(fs[j].0, fs[k].0));
        lemma_text_less_irreflexive(fs[k].0);
    }
    lemma_field_at(fs, fs[k].0, k);
}

proof fn lemma_field_found(fs: Seq<(Seq<char>, JsonModel)>, key: Seq<char>)
    requires
        field(fs, key) is Some,
    ensures
        names(fs).contains(key),
    decreases fs.len(),
{
    if fs.len() > 0 {
        if fs[0].0 == key {
            assert(names(fs)[0] == key);
        } else {
            lemma_field_found(fs.drop_first(), key);
            let ns = names(fs.drop_first());
            let j = choose|j: int| 0 <= j < ns.len() && ns[j] == key;
            assert(names(fs)[j + 1] == key);
        }
    }
}

/// The objects of a table have the names of the first one, in the same order.
proof fn lemma_table_names(items: Seq<JsonModel>, i: int)
    requires
        is_table(items),
        0 <= i < items.len(),
        all_kept(items),
    ensures
        items[i] is Object,
        all_scalar_fields(items[i]->Object_0),
        names(items[i]->Object_0) == names(items[0]->Object_0),
{
    assert(kept(items[i]) && kept(items[0]));
    let first = items[0]->Object_0;
    assert(same_columns(first, items[i]));
    let fs = items[i]->Object_0;
    assert(items[i] == JsonModel::Object(fs));
    assert(items[0] == JsonModel::Object(first));
    lemma_ascending_names(fs);
    lemma_ascending_names(first);
    assert forall|k: int| 0 <= k < names(first).len() implies names(fs).contains(#[trigger] names(first)[k]) by {
        assert(has_scalar(fs, first[k].0));
        lemma_field_found(fs, first[k].0);
    }
    lemma_same_names(names(first), names(fs));
    assert forall|k: int| 0 <= k < fs.len() implies (#[trigger] fs[k]).1.is_scalar() by {
        assert(names(first)[k] == names(fs)[k]);
        assert(has_scalar(fs, first[k].0));
        lemma_field_of_ascending(fs, k);
    }
}

spec fn all_scalar_fields(fs: Seq<(Seq<char>, JsonModel)>) -> bool {
    forall|i: int| 0 <= i < fs.len() ==> (#[trigger] fs[i]).1.is_scalar()
}

/// Reading the cells of the fields `rest` after `map` was read gives all of them.
proof fn lemma_row_object(
    map: Seq<(Seq<char>, JsonModel)>,
    rest: Seq<(Seq<char>, JsonModel)>,
    row: Seq<Seq<char>>,
)
    requires
        ascending(map + rest),
        row.len() == rest.len(),
        forall|i: int| 0 <= i < rest.len() ==> parse_scalar(#[trigger] row[i]) == rest[i].1,
    ensures
        row_object(names(rest), row, map) == map + rest,
    decreases rest.len(),
{
    let all = map + rest;
    if rest.len() == 0 {
        assert(all =~= map);
    } else {
        let key = rest[0].0;
        assert(all[map.len() as int] == rest[0]);
        assert forall|i: int| 0 <= i < map.len() implies text_less((#[trigger] map[i]).0, key) by {
            assert(all[i] == map[i]);
        }
        lemma_with_field_last(map, key, rest[0].1);
        let map1 = map.push(rest[0]);
        let rest1 = rest.drop_first();
        let row1 = row.drop_first();
        assert(map1 + rest1 =~= all);
        assert forall|i: int| 0 <= i < rest1.len() implies parse_scalar(#[trigger] row1[i]) == rest1[i].1 by {
            assert(row1[i] == row[i + 1]);
        }
        assert(parse_scalar(row[0]) == rest[0].1);
        assert(names(rest).drop_first() =~= names(rest1));
        assert((key, rest[0].1) == rest[0]);
        lemma_row_object(map1, rest1, row1);
    }
}

/// The cells of a row, each a token that reads back as the field.
proof fn lemma_row(item: JsonModel, columns: Seq<Seq<char>>)
    requires
        item is Object,
        kept(item),
        all_scalar_fields(item->Object_0),
        columns == names(item->Object_0),
        columns.len() > 0,
    ensures
        ({
            let row = row_cells(columns, item);
            let fs = item->Object_0;
            &&& tight(join(row, ","@))
            &&& !has_char(join(row, ","@), '\n')
            &&& cells(join(row, ","@), false, seq![]) == row
            &&& row_object(columns, row, seq![]) == fs
        }),
{
    let fs = item->Object_0;
    let row = row_cells(columns, item);
    assert(item == JsonModel::Object(fs));
    lemma_kept_fields(fs);
    assert forall|i: int| 0 <= i < row.len() implies good_token(#[trigger] row[i]) && parse_scalar(row[i])
        == fs[i].1 by {
        lemma_field_of_ascending(fs, i);
        assert(columns[i] == fs[i].0);
        lemma_kept_fields(fs);
        assert(kept(fs[i].1) && fs[i].1.is_scalar());
        lemma_token(fs[i].1);
    }
    lemma_join_tight(row);
    lemma_cells_join(row);
    let none = Seq::<(Seq<char>, JsonModel)>::empty();
    assert(none + fs =~= fs);
    lemma_row_object(none, fs, row);
}

proof fn lemma_rows(
    items: Seq<JsonModel>,
    columns: Seq<Seq<char>>,
    n: nat,
    lines: Seq<Seq<char>>,
    at: int,
)
    requires
        forall|i: int|
            0 <= i < items.len() ==> (#[trigger] items[i]) is Object && kept(items[i])
                && all_scalar_fields(items[i]->Object_0) && names(items[i]->Object_0) == columns,
        holds_at(lines, at, table_rows(padding(n), columns, items)),
    ensures
        read_rows(lines, at, columns, items.len()) == Ok::<(Seq<JsonModel>, int), Seq<char>>(
            (items, at + items.len()),
        ),
    decreases items.len(),
{
    if items.len() == 0 {
        assert(items =~= seq![]);
    } else {
        let rows = table_rows(padding(n), columns, items);
        lemma_holds_line(lines, at, rows, 0);
        let text = join(row_cells(columns, items[0]), ","@);
        lemma_deeper(n);
        assert(lines[at] == spaces(2 * (n + 1)) + text);
        if columns.len() > 0 {
            lemma_row(items[0], columns);
            lemma_trim_spaces(2 * (n + 1), text);
        } else {
            assert(names(items[0]->Object_0).len() == 0);
            assert(items[0]->Object_0 =~= seq![]);
        }
        let rest = items.drop_first();
        assert(rows =~= seq![rows[0]] + table_rows(padding(n), columns, rest));
        lemma_holds_parts(lines, at, seq![rows[0]], table_rows(padding(n), columns, rest));
        assert forall|i: int| 0 <= i < rest.len() implies (#[trigger] rest[i]) is Object && kept(rest[i])
            && all_scalar_fields(rest[i]->Object_0) && names(rest[i]->Object_0) == columns by {
            assert(rest[i] == items[i + 1]);
        }
        lemma_rows(rest, columns, n, lines, at + 1);
        assert(seq![items[0]] + rest =~= items);
        assert(JsonModel::Object(items[0]->Object_0) == items[0]);
    }
}

// ---------------------------------------------------------------------------
// Reading back, part by part
// ---------------------------------------------------------------------------

/// Reading an array from its header on gives it back.
proof fn lemma_header(
    items: Seq<JsonModel>,
    n: nat,
    lines: Seq<Seq<char>>,
    at: int,
    missing: Seq<char>,
    bad: Seq<char>,
)
    requires
        0 < items.len() <= usize::MAX,
        all_kept(items),
        0 <= at < lines.len(),
        holds_at(lines, at + 1, below_header(items, padding(n))),
        above(lines, at + 1 + below_header(items, padding(n)).len(), n as int + 1),
    ensures
        read_header(lines, at, header_tail(items), n as int, missing, bad) == Ok::<
            (JsonModel, int),
            Seq<char>,
        >((JsonModel::Array(items), at + 1 + below_header(items, padding(n)).len())),
    decreases items, 2int,
{
    lemma_literals();
    lemma_header_tail(items);
    lemma_dec(items.len());
    let h = header_tail(items);
    let suffix = array_suffix(items);
    let d = dec(items.len());
    lemma_read_header(lines, at, h, n as int, missing, bad);
    assert(is_digit(d[0]));
    assert(!first_is(d, '+'));
    assert(read_length(h) == Some(items.len()));
    assert(h.skip(index_of(h, ']') + 1) == suffix);
    lemma_read_array(lines, at, suffix, items.len(), n as int);
    if is_table(items) {
        let columns = names(items[0]->Object_0);
        let joined = join(name_texts(columns), ","@);
        let part = suffix.skip(1);
        assert(suffix[0] == '{');
        assert(part =~= joined + "}:"@);
        assert forall|i: int| 0 <= i < items.len() implies (#[trigger] items[i]) is Object && kept(items[i])
            && all_scalar_fields(items[i]->Object_0) && names(items[i]->Object_0) == columns by {
            lemma_table_names(items, i);
        }
        lemma_brace_names(columns, "}:"@);
        assert(brace_at("}:"@) == 0);
        assert(part.take(joined.len() as int) =~= joined);
        lemma_columns(columns);
        lemma_rows(items, columns, n, lines, at + 1);
    } else if all_scalar(items) {
        let toks = scalar_texts(items);
        let joined = join(toks, ","@);
        assert forall|i: int| 0 <= i < toks.len() implies good_token(#[trigger] toks[i]) && parse_scalar(
            toks[i],
        ) == items[i] by {
            assert(items[i].is_scalar() && kept(items[i]));
            lemma_token(items[i]);
        }
        lemma_join_tight(toks);
        lemma_cells_join(toks);
        assert(suffix[0] == ':');
        assert(suffix.skip(1) =~= seq![' '] + joined);
        lemma_trim_one_space(joined);
        assert(parse_all(toks) =~= items);
    } else {
        assert(suffix[0] == ':' && suffix[0] != '{');
        assert(suffix.skip(1) =~= Seq::<char>::empty());
        assert(trim(suffix.skip(1)).len() == 0);
        lemma_deeper(n);
        lemma_items(items, n + 1, lines, at + 1);
    }
}

/// The columns of a table header read back.
proof fn lemma_columns(columns: Seq<Seq<char>>)
    ensures
        read_columns(join(name_texts(columns), ","@)) == columns,
{
    let parts = name_texts(columns);
    let joined = join(parts, ","@);
    if columns.len() == 0 {
        assert(joined =~= seq![]);
        assert(columns =~= seq![]);
    } else {
        assert forall|i: int| 0 <= i < parts.len() implies whole(#[trigger] parts[i]) && tight(parts[i])
            && !has_char(parts[i], '\n') && read_name(parts[i]) == columns[i] by {
            lemma_name(columns[i]);
        }
        lemma_cells_join(parts);
        lemma_join_tight(parts);
        assert(read_names(parts) =~= columns);
    }
}

proof fn lemma_join_lacks(parts: Seq<Seq<char>>, c: char)
    requires
        c != ',',
        forall|i: int| 0 <= i < parts.len() ==> !has_char(#[trigger] parts[i], c),
    ensures
        !has_char(join(parts, ","@), c),
    decreases parts.len(),
{
    lemma_literals();
    if parts.len() == 1 {
        assert(!has_char(parts[0], c));
    } else if parts.len() > 1 {
        let rest = parts.drop_last();
        assert forall|i: int| 0 <= i < rest.len() implies !has_char(#[trigger] rest[i], c) by {
            assert(rest[i] == parts[i]);
        }
        lemma_join_lacks(rest, c);
        let s = join(parts, ","@);
        let j = join(rest, ","@);
        assert(s =~= j + ","@ + parts.last());
        assert(!has_char(parts[parts.len() - 1], c));
        if s.contains(c) {
            let k = choose|k: int| 0 <= k < s.len() && s[k] == c;
            if k < j.len() {
                assert(j[k] == c);
            } else if k > j.len() {
                assert(parts.last()[k - j.len() - 1] == c);
            }
        }
    }
}

proof fn lemma_items(items: Seq<JsonModel>, n: nat, lines: Seq<Seq<char>>, at: int)
    requires
        all_kept(items),
        holds_at(lines, at, list_lines(items, padding(n))),
        above(lines, at + list_lines(items, padding(n)).len(), n as int),
    ensures
        read_items(lines, at, items.len(), n as int) == Ok::<(Seq<JsonModel>, int), Seq<char>>(
            (items, at + list_lines(items, padding(n)).len()),
        ),
    decreases items, 1int,
{
    lemma_read_items(lines, at, items.len(), n as int);
    if items.len() == 0 {
        assert(items =~= seq![]);
    } else {
        let a = item_lines(items[0], padding(n));
        let rest = items.drop_first();
        let b = list_lines(rest, padding(n));
        lemma_holds_parts(lines, at, a, b);
        assert forall|i: int| 0 <= i < rest.len() implies kept(#[trigger] rest[i]) by {
            assert(rest[i] == items[i + 1]);
        }
        let next = at + a.len();
        assert(kept(items[0]));
        assert(above(lines, next, n as int + 1)) by {
            if rest.len() > 0 {
                assert(kept(rest[0]));
                lemma_item_lines(rest[0], n);
                lemma_item_first_line(rest[0], n);
                let c = item_lines(rest[0], padding(n));
                assert(b =~= c + list_lines(rest.drop_first(), padding(n)));
                assert(b[0] == c[0]);
                lemma_holds_line(lines, next, b, 0);
            } else {
                assert(b =~= seq![]);
            }
        }
        lemma_item(items[0], n, lines, at);
        lemma_items(rest, n, lines, next);
        assert(seq![items[0]] + rest =~= items);
    }
}

/// What stands behind the hyphen of an item that is not an empty object.
spec fn item_text(item: JsonModel) -> Seq<char> {
    match item {
        JsonModel::Object(fs) => field_text(fs[0].0, fs[0].1),
        JsonModel::Array(items) => if items.len() == 0 {
            "[]"@
        } else {
            header_tail(items)
        },
        _ => scalar_text(item),
    }
}

/// The lines of an item below its first.
spec fn item_below(item: JsonModel, n: nat) -> Seq<Seq<char>> {
    match item {
        JsonModel::Object(fs) => field_below(fs[0].1, n + 1) + field_lines(
            fs.drop_first(),
            padding(n + 1),
        ),
        JsonModel::Array(items) => if items.len() == 0 {
            seq![]
        } else {
            below_header(items, padding(n))
        },
        _ => seq![],
    }
}

spec fn is_empty_object(item: JsonModel) -> bool {
    item matches JsonModel::Object(fs) && fs.len() == 0
}

proof fn lemma_item_lines(item: JsonModel, n: nat)
    requires
        kept(item),
    ensures
        is_empty_object(item) ==> item_lines(item, padding(n)) == seq![padding(n) + "-"@],
        !is_empty_object(item) ==> item_lines(item, padding(n)) == seq![
            padding(n) + ("- "@ + item_text(item)),
        ] + item_below(item, n),
        !is_empty_object(item) ==> tight(item_text(item)) && !has_char(item_text(item), '\n'),
{
    lemma_literals();
    lemma_deeper(n);
    let pad = padding(n);
    match item {
        JsonModel::Object(fs) => {
            if fs.len() > 0 {
                lemma_kept_fields(fs);
                assert(kept(fs[0].1));
                let key = fs[0].0;
                let value = fs[0].1;
                lemma_field_lines(key, value, n + 1);
                let text = field_text(key, value);
                let below = field_below(value, n + 1);
                let more = field_lines(fs.drop_first(), padding(n + 1));
                let all = field_lines(fs, padding(n + 1));
                assert(all == (seq![padding(n + 1) + text] + below) + more);
                assert(all[0] == padding(n + 1) + text);
                lemma_line(n + 1, text);
                assert(all.drop_first() =~= below + more);
                assert(pad + "- "@ + text =~= pad + ("- "@ + text));
            }
        },
        JsonModel::Array(items) => {
            if items.len() == 0 {
                assert(pad + "- []"@ =~= pad + ("- "@ + "[]"@));
                assert(item_lines(item, pad) =~= seq![pad + ("- "@ + "[]"@)]);
            } else {
                lemma_kept_items(items);
                lemma_array_lines(items, pad, ""@);
                lemma_header_tight(items);
                let h = header_tail(items);
                let arr = array_lines(items, pad, ""@);
                assert(""@ + h =~= h);
                assert(arr[0] == pad + h);
                lemma_line(n, h);
                assert(arr.drop_first() =~= below_header(items, pad));
                assert(pad + "- "@ + h =~= pad + ("- "@ + h));
            }
        },
        _ => {
            lemma_token(item);
            let tok = scalar_text(item);
            assert(pad + "- "@ + tok =~= pad + ("- "@ + tok));
            assert(item_lines(item, pad) =~= seq![pad + ("- "@ + tok)]);
        },
    }
}

/// The first line of an item is on the level of its list.
proof fn lemma_item_first_line(item: JsonModel, n: nat)
    requires
        kept(item),
    ensures
        item_lines(item, padding(n)).len() > 0,
        line_level(item_lines(item, padding(n))[0]) == n,
{
    lemma_literals();
    lemma_item_lines(item, n);
    if is_empty_object(item) {
        lemma_line(n, "-"@);
    } else {
        lemma_line(n, "- "@ + item_text(item));
    }
}

/// Reading an item gives it back.
proof fn lemma_item(item: JsonModel, n: nat, lines: Seq<Seq<char>>, at: int)
    requires
        kept(item),
        holds_at(lines, at, item_lines(item, padding(n))),
        above(lines, at + item_lines(item, padding(n)).len(), n as int + 1),
    ensures
        read_item(lines, at, n as int) == Ok::<(JsonModel, int), Seq<char>>(
            (item, at + item_lines(item, padding(n)).len()),
        ),
        item_lines(item, padding(n)).len() > 0,
    decreases item, 0int,
{
    lemma_literals();
    let pad = padding(n);
    let block = item_lines(item, pad);
    lemma_item_lines(item, n);
    lemma_holds_line(lines, at, block, 0);
    lemma_read_item(lines, at, n as int);
    if is_empty_object(item) {
        lemma_line(n, "-"@);
        assert("-"@.skip(1) =~= Seq::<char>::empty());
        assert(item->Object_0 =~= seq![]);
    } else {
        let body = item_text(item);
        let text = "- "@ + body;
        lemma_line(n, text);
        assert(text.skip(2) =~= body);
        assert(text.skip(1)[0] == ' ');
        assert(item_body(lines[at]) == Some(body));
        assert(trim(body) == body);
        lemma_holds_parts(lines, at, seq![pad + text], item_below(item, n));
        match item {
            JsonModel::Object(fs) => {
                lemma_item_object(fs, n, lines, at);
            },
            JsonModel::Array(items) => {
                if items.len() == 0 {
                    assert(items =~= seq![]);
                } else {
                    lemma_kept_items(items);
                    lemma_header_tail(items);
                    lemma_header_not_empty(items);
                    lemma_header(
                        items,
                        n,
                        lines,
                        at,
                        "missing ']' in list-item array"@,
                        "bad count in list-item array"@,
                    );
                }
            },
            _ => {
                lemma_token(item);
            },
        }
    }
}

/// Reading an object in a list gives it back.
proof fn lemma_item_object(fs: Seq<(Seq<char>, JsonModel)>, n: nat, lines: Seq<Seq<char>>, at: int)
    requires
        fs.len() > 0,
        kept(JsonModel::Object(fs)),
        0 <= at < lines.len(),
        item_body(lines[at]) == Some(field_text(fs[0].0, fs[0].1)),
        holds_at(lines, at + 1, item_below(JsonModel::Object(fs), n)),
        above(lines, at + 1 + item_below(JsonModel::Object(fs), n).len(), n as int + 1),
    ensures
        read_item(lines, at, n as int) == Ok::<(JsonModel, int), Seq<char>>(
            (JsonModel::Object(fs), at + 1 + item_below(JsonModel::Object(fs), n).len()),
        ),
    decreases fs, 5int,
{
    lemma_literals();
    lemma_kept_fields(fs);
    let key = fs[0].0;
    let value = fs[0].1;
    assert(kept(fs[0].1));
    let body = field_text(key, value);
    let t = name_text(key);
    let k = t.len() as int;
    let below = field_below(value, n + 1);
    let more = fs.drop_first();
    let rest = field_lines(more, padding(n + 1));
    let next = at + 1 + below.len();
    lemma_field_lines(key, value, n + 1);
    lemma_field_tail(key, value);
    lemma_holds_parts(lines, at + 1, below, rest);
    assert(fields_kept(more)) by {
        assert forall|i: int| 0 <= i < more.len() implies kept((#[trigger] more[i]).1) by {
            assert(more[i] == fs[i + 1]);
        }
    }
    assert(above(lines, next, n as int + 2)) by {
        if more.len() > 0 {
            lemma_field_first_line(more, n + 1);
            lemma_holds_line(lines, next, rest, 0);
        } else {
            assert(rest =~= seq![]);
        }
    }
    assert(trim(body) == body);
    assert(body[0] != '[' && body != "[]"@);
    lemma_read_item(lines, at, n as int);
    let tail = field_tail(value);
    lemma_after_name(key, tail, ':');
    lemma_after_name(key, tail, '[');
    lemma_index_of(tail, ':');
    lemma_index_of(tail, '[');
    assert(decreases_to!(fs => fs[0]));
    match value {
        JsonModel::Array(items) => {
            if items.len() > 0 {
                lemma_kept_items(items);
                lemma_header_tail(items);
                lemma_header(
                    items,
                    n + 1,
                    lines,
                    at,
                    "missing ']' after list-item array key"@,
                    "bad count in list-item array key"@,
                );
            } else {
                lemma_read_first_value(lines, at, "[]"@, n as int);
                assert(body.skip(k + 1) =~= seq![' '] + "[]"@);
                lemma_trim_one_space("[]"@);
                assert(trim("[]"@) == "[]"@);
                assert(items =~= seq![]);
            }
        },
        JsonModel::Object(nested) => {
            let none = Seq::<(Seq<char>, JsonModel)>::empty();
            assert(body.skip(k + 1) =~= Seq::<char>::empty());
            let blank = trim(body.skip(k + 1));
            assert(blank =~= Seq::<char>::empty());
            lemma_read_first_value(lines, at, blank, n as int);
            lemma_kept_fields(nested);
            if nested.len() > 0 {
                lemma_field_first_line(nested, n + 2);
                lemma_holds_line(lines, at + 1, below, 0);
                assert(none + nested =~= nested);
                lemma_fields(nested, n + 2, lines, at + 1, none);
            } else {
                assert(below =~= seq![]);
                assert(nested =~= seq![]);
            }
        },
        _ => {
            lemma_token(value);
            let tok = scalar_text(value);
            assert(body.skip(k + 1) =~= seq![' '] + tok);
            lemma_trim_one_space(tok);
            lemma_read_first_value(lines, at, tok, n as int);
        },
    }
    lemma_siblings(fs, n, lines, at, next);
    assert(item_below(JsonModel::Object(fs), n).len() == below.len() + rest.len());
}

/// Reading the other fields of an object in a list gives them back behind the first.
proof fn lemma_siblings(
    fs: Seq<(Seq<char>, JsonModel)>,
    n: nat,
    lines: Seq<Seq<char>>,
    at: int,
    next: int,
)
    requires
        fs.len() > 0,
        fields_kept(fs.drop_first()),
        ascending(fs),
        0 <= at < next,
        holds_at(lines, next, field_lines(fs.drop_first(), padding(n + 1))),
        above(lines, next + field_lines(fs.drop_first(), padding(n + 1)).len(), n as int + 1),
    ensures
        read_siblings(lines, at, fs[0].0, fs[0].1, next, n as int) == Ok::<
            (JsonModel, int),
            Seq<char>,
        >((JsonModel::Object(fs), next + field_lines(fs.drop_first(), padding(n + 1)).len())),
    decreases fs, 4int,
{
    let key = fs[0].0;
    let value = fs[0].1;
    let more = fs.drop_first();
    let rest = field_lines(more, padding(n + 1));
    let map = with_field(seq![], key, value);
    assert(map =~= seq![(key, value)]);
    lemma_read_siblings(lines, at, key, value, next, n as int);
    if more.len() > 0 {
        lemma_field_first_line(more, n + 1);
        lemma_holds_line(lines, next, rest, 0);
        assert(goes_on(lines, next, n as int));
        let none = Seq::<(Seq<char>, JsonModel)>::empty();
        assert(none + more =~= more);
        assert(ascending(more)) by {
            assert forall|i: int, j: int| 0 <= i < j < more.len() implies text_less(
                (#[trigger] more[i]).0,
                (#[trigger] more[j]).0,
            ) by {
                assert(more[i] == fs[i + 1] && more[j] == fs[j + 1]);
            }
        }
        assert(more =~= fs.subrange(1, fs.len() as int));
        assert(decreases_to!(fs => fs.subrange(1, fs.len() as int)));
        lemma_fields(more, n + 1, lines, next, none);
        assert(map + more =~= fs);
        lemma_with_fields(map, more);
    } else {
        assert(rest =~= seq![]);
        assert(!goes_on(lines, next, n as int));
        assert(map =~= fs);
    }
}

/// Setting fields above those of the map, one after the other, puts them at the end.
proof fn lemma_with_fields(map: Seq<(Seq<char>, JsonModel)>, more: Seq<(Seq<char>, JsonModel)>)
    requires
        ascending(map + more),
    ensures
        with_fields(map, more) == map + more,
    decreases more.len(),
{
    let all = map + more;
    if more.len() == 0 {
        assert(all =~= map);
    } else {
        assert(all[map.len() as int] == more[0]);
        assert forall|i: int| 0 <= i < map.len() implies text_less((#[trigger] map[i]).0, more[0].0) by {
            assert(all[i] == map[i]);
        }
        lemma_with_field_last(map, more[0].0, more[0].1);
        assert((more[0].0, more[0].1) == more[0]);
        assert(map.push(more[0]) + more.drop_first() =~= all);
        lemma_with_fields(map.push(more[0]), more.drop_first());
    }
}

/// What follows the name in the first line of a field.
spec fn field_tail(value: JsonModel) -> Seq<char> {
    match value {
        JsonModel::Object(_) => ":"@,
        JsonModel::Array(items) => if items.len() == 0 {
            ": []"@
        } else {
            header_tail(items)
        },
        _ => ": "@ + scalar_text(value),
    }
}

/// The text of the first line of a field.
spec fn field_text(key: Seq<char>, value: JsonModel) -> Seq<char> {
    name_text(key) + field_tail(value)
}

/// The lines of a field below its first.
spec fn field_below(value: JsonModel, n: nat) -> Seq<Seq<char>> {
    match value {
        JsonModel::Object(nested) => field_lines(nested, padding(n + 1)),
        JsonModel::Array(items) => if items.len() == 0 {
            seq![]
        } else {
            below_header(items, padding(n))
        },
        _ => seq![],
    }
}

/// The text of a field has no white space at its ends and is on one line.
proof fn lemma_field_tail(key: Seq<char>, value: JsonModel)
    requires
        kept(value),
    ensures
        tight(field_text(key, value)),
        !has_char(field_text(key, value), '\n'),
        field_text(key, value)[0] != '-',
        field_text(key, value)[0] != '[',
        !is_token(field_text(key, value)),
{
    lemma_literals();
    let t = name_text(key);
    let tail = field_tail(value);
    let text = field_text(key, value);
    lemma_name(key);
    lemma_after_name(key, tail, ':');
    match value {
        JsonModel::Object(_) => {
            assert(tail[0] == ':');
        },
        JsonModel::Array(items) => {
            if items.len() == 0 {
                assert(tail[0] == ':');
            } else {
                lemma_kept_items(items);
                lemma_header_tail(items);
                lemma_header_tight(items);
            }
        },
        _ => {
            lemma_token(value);
            lemma_no_newline(": "@, scalar_text(value));
            assert(tail[0] == ':');
            assert(tail.last() == scalar_text(value).last());
        },
    }
    lemma_index_of(tail, ':');
    lemma_no_newline(t, tail);
    assert(text[0] == t[0]);
    assert(text.last() == tail.last());
}

proof fn lemma_field_lines(key: Seq<char>, value: JsonModel, n: nat)
    requires
        kept(value),
    ensures
        one_field_lines(key, value, padding(n)) == seq![padding(n) + field_text(key, value)] + field_below(
            value,
            n,
        ),
        tight(field_text(key, value)),
        !has_char(field_text(key, value), '\n'),
        field_text(key, value)[0] != '-',
{
    lemma_literals();
    lemma_deeper(n);
    lemma_field_tail(key, value);
    let pad = padding(n);
    let t = name_text(key);
    let text = field_text(key, value);
    match value {
        JsonModel::Object(nested) => {
            assert(pad + t + ":"@ =~= pad + text);
        },
        JsonModel::Array(items) => {
            if items.len() == 0 {
                assert(pad + t + ": []"@ =~= pad + text);
            } else {
                lemma_array_lines(items, pad, t);
            }
        },
        _ => {
            assert(pad + t + ": "@ + scalar_text(value) =~= pad + text);
        },
    }
    assert(one_field_lines(key, value, pad) =~= seq![pad + text] + field_below(value, n));
}

proof fn lemma_field_first_line(fs: Seq<(Seq<char>, JsonModel)>, n: nat)
    requires
        fs.len() > 0,
        fields_kept(fs),
    ensures
        field_lines(fs, padding(n)).len() > 0,
        line_level(field_lines(fs, padding(n))[0]) == n,
        trim(field_lines(fs, padding(n))[0]).len() > 0,
        !first_is(trim_start(field_lines(fs, padding(n))[0]), '-'),
        field_lines(fs, padding(n))[0] == padding(n) + field_text(fs[0].0, fs[0].1),
{
    assert(kept(fs[0].1));
    lemma_field_lines(fs[0].0, fs[0].1, n);
    lemma_line(n, field_text(fs[0].0, fs[0].1));
    let a = one_field_lines(fs[0].0, fs[0].1, padding(n));
    assert(field_lines(fs, padding(n)) =~= a + field_lines(fs.drop_first(), padding(n)));
    assert(field_lines(fs, padding(n))[0] == a[0]);
}

/// Reading fields gives them back behind those that were read before.
proof fn lemma_fields(
    fs: Seq<(Seq<char>, JsonModel)>,
    n: nat,
    lines: Seq<Seq<char>>,
    at: int,
    map: Seq<(Seq<char>, JsonModel)>,
)
    requires
        fields_kept(fs),
        ascending(map + fs),
        holds_at(lines, at, field_lines(fs, padding(n))),
        above(lines, at + field_lines(fs, padding(n)).len(), n as int),
    ensures
        read_fields(lines, at, n as int, map) == Ok::<(Seq<(Seq<char>, JsonModel)>, int), Seq<char>>(
            (map + fs, at + field_lines(fs, padding(n)).len()),
        ),
    decreases fs, 2int,
{
    lemma_read_fields(lines, at, n as int, map);
    if fs.len() == 0 {
        assert(field_lines(fs, padding(n)) =~= seq![]);
        assert(no_field(lines, at, n as int));
        assert(map + fs =~= map);
    } else {
        let key = fs[0].0;
        let value = fs[0].1;
        let a = one_field_lines(key, value, padding(n));
        let rest = fs.drop_first();
        let b = field_lines(rest, padding(n));
        lemma_holds_parts(lines, at, a, b);
        assert(kept(fs[0].1));
        lemma_field_lines(key, value, n);
        lemma_line(n, field_text(key, value));
        lemma_holds_line(lines, at, a, 0);
        assert(!no_field(lines, at, n as int));
        let next = at + a.len();
        assert(fields_kept(rest)) by {
            assert forall|i: int| 0 <= i < rest.len() implies kept((#[trigger] rest[i]).1) by {
                assert(rest[i] == fs[i + 1]);
            }
        }
        assert(above(lines, next, n as int + 1)) by {
            if rest.len() > 0 {
                lemma_field_first_line(rest, n);
                lemma_holds_line(lines, next, b, 0);
            } else {
                assert(b =~= seq![]);
            }
        }
        lemma_field(key, value, n, lines, at);
        let all = map + fs;
        assert(all[map.len() as int] == fs[0]);
        assert forall|i: int| 0 <= i < map.len() implies text_less((#[trigger] map[i]).0, key) by {
            assert(all[i] == map[i]);
        }
        lemma_with_field_last(map, key, value);
        assert((key, value) == fs[0]);
        let map1 = map.push(fs[0]);
        assert(map1 + rest =~= all);
        lemma_fields(rest, n, lines, next, map1);
    }
}

/// A name before a colon is not taken for the header of an array.
proof fn lemma_plain_field(key: Seq<char>, tail: Seq<char>)
    requires
        tail.len() > 0,
        tail[0] == ':',
        tail.len() > 1 ==> tail[1] == ' ',
    ensures
        ({
            let text = name_text(key) + tail;
            let k = name_text(key).len() as int;
            &&& !starts_array(text)
            &&& after_name(text, ':') == k
            &&& read_name(text.take(k)) == key
            &&& text.skip(k + 1) == tail.skip(1)
        }),
{
    let text = name_text(key) + tail;
    let k = name_text(key).len() as int;
    lemma_after_name(key, tail, ':');
    lemma_after_name(key, tail, '[');
    assert(index_of(tail, ':') == 0);
    assert(text.skip(k + 1) =~= tail.skip(1));
    lemma_index_of(tail, '[');
    let b = after_name(text, '[');
    if 0 < b < text.len() && no_space(text.take(b)) {
        assert(tail[b - k] == '[');
        assert(b > k + 1);
        assert(text.take(b)[k + 1] == ' ');
    }
}

/// Reading a field gives it back.
proof fn lemma_field(key: Seq<char>, value: JsonModel, n: nat, lines: Seq<Seq<char>>, at: int)
    requires
        kept(value),
        holds_at(lines, at, one_field_lines(key, value, padding(n))),
        above(lines, at + one_field_lines(key, value, padding(n)).len(), n as int + 1),
    ensures
        read_field(lines, at, n as int) == Ok::<(Seq<char>, JsonModel, int), Seq<char>>(
            (key, value, at + one_field_lines(key, value, padding(n)).len()),
        ),
        one_field_lines(key, value, padding(n)).len() > 0,
    decreases value, 3int,
{
    lemma_literals();
    let pad = padding(n);
    let block = one_field_lines(key, value, pad);
    let text = field_text(key, value);
    let tail = field_tail(value);
    lemma_field_lines(key, value, n);
    lemma_holds_line(lines, at, block, 0);
    lemma_holds_parts(lines, at, seq![pad + text], field_below(value, n));
    lemma_line(n, text);
    lemma_read_field(lines, at, n as int);
    match value {
        JsonModel::Object(nested) => {
            lemma_plain_field(key, tail);
            assert(":"@.skip(1) =~= Seq::<char>::empty());
            assert(trim(":"@.skip(1)).len() == 0);
            lemma_kept_fields(nested);
            if nested.len() > 0 {
                lemma_field_first_line(nested, n + 1);
                lemma_holds_line(lines, at + 1, field_below(value, n), 0);
                let none = Seq::<(Seq<char>, JsonModel)>::empty();
                assert(none + nested =~= nested);
                lemma_fields(nested, n + 1, lines, at + 1, none);
            } else {
                assert(field_below(value, n) =~= seq![]);
                assert(nested =~= seq![]);
            }
        },
        JsonModel::Array(items) => {
            if items.len() == 0 {
                lemma_plain_field(key, tail);
                assert(tail.skip(1) =~= seq![' '] + "[]"@);
                lemma_trim_one_space("[]"@);
                assert(trim("[]"@) == "[]"@);
                assert(items =~= seq![]);
            } else {
                lemma_header_tail(items);
                lemma_name(key);
                lemma_after_name(key, tail, '[');
                lemma_after_name(key, tail, ':');
                assert(starts_array(text));
                lemma_kept_items(items);
                lemma_header(
                    items,
                    n,
                    lines,
                    at,
                    "missing ']' in header: "@ + lines[at],
                    "bad length in header: "@ + lines[at],
                );
            }
        },
        _ => {
            lemma_token(value);
            let tok = scalar_text(value);
            lemma_plain_field(key, tail);
            assert(tail.skip(1) =~= seq![' '] + tok);
            lemma_trim_one_space(tok);
        },
    }
}

// ---------------------------------------------------------------------------
// Lines without line breaks
// ---------------------------------------------------------------------------

proof fn lemma_clean(pad: Seq<char>, text: Seq<char>)
    requires
        !has_char(pad, '\n'),
        !has_char(text, '\n'),
        text.len() > 0,
        text.last() != '\r',
    ensures
        clean(pad + text),
{
    let line = pad + text;
    assert(line.last() == text.last());
    if line.contains('\n') {
        let j = choose|j: int| 0 <= j < line.len() && line[j] == '\n';
        if j < pad.len() {
            assert(pad[j] == '\n');
        } else {
            assert(text[j - pad.len()] == '\n');
        }
    }
}

proof fn lemma_no_newline(a: Seq<char>, b: Seq<char>)
    requires
        !has_char(a, '\n'),
        !has_char(b, '\n'),
    ensures
        !has_char(a + b, '\n'),
{
    let s = a + b;
    if s.contains('\n') {
        let j = choose|j: int| 0 <= j < s.len() && s[j] == '\n';
        if j < a.len() {
            assert(a[j] == '\n');
        } else {
            assert(b[j - a.len()] == '\n');
        }
    }
}

proof fn lemma_padding_clean(n: nat)
    ensures
        !has_char(padding(n), '\n'),
{
}

/// The header of an array has no white space at its ends and is on one line.
proof fn lemma_header_tight(items: Seq<JsonModel>)
    requires
        items.len() > 0,
        all_kept(items),
    ensures
        tight(header_tail(items)),
        !has_char(header_tail(items), '\n'),
{
    lemma_literals();
    lemma_header_tail(items);
    let d = dec(items.len());
    lemma_dec(items.len());
    let suffix = array_suffix(items);
    let h = header_tail(items);
    let front = "["@ + d + "]"@;
    assert(h =~= front + suffix);
    assert(!has_char(front, '\n')) by {
        if front.contains('\n') {
            let j = choose|j: int| 0 <= j < front.len() && front[j] == '\n';
            if 0 < j <= d.len() {
                assert(is_digit(d[j - 1]));
            }
        }
    }
    if is_table(items) {
        let shown = name_texts(names(items[0]->Object_0));
        assert forall|i: int| 0 <= i < shown.len() implies !has_char(#[trigger] shown[i], '\n') by {
            lemma_name(names(items[0]->Object_0)[i]);
        }
        lemma_join_lacks(shown, '\n');
        lemma_no_newline("{"@, join(shown, ","@));
        lemma_no_newline("{"@ + join(shown, ","@), "}:"@);
        assert(suffix.last() == ':');
    } else if all_scalar(items) {
        let toks = scalar_texts(items);
        assert forall|i: int| 0 <= i < toks.len() implies good_token(#[trigger] toks[i]) by {
            assert(items[i].is_scalar() && kept(items[i]));
            lemma_token(items[i]);
        }
        lemma_join_tight(toks);
        let joined = join(toks, ","@);
        lemma_no_newline(": "@, joined);
        assert(suffix.last() == joined.last());
    } else {
        assert(suffix.last() == ':');
    }
    lemma_no_newline(front, suffix);
    assert(h.last() == suffix.last());
}

/// A header is not the text of an empty array.
proof fn lemma_header_not_empty(items: Seq<JsonModel>)
    ensures
        header_tail(items) != "[]"@,
{
    lemma_literals();
    let d = dec(items.len());
    lemma_dec(items.len());
    assert(is_digit(d[0]));
    assert(header_tail(items)[1] == d[0]);
}

proof fn lemma_below_clean(items: Seq<JsonModel>, n: nat)
    requires
        items.len() > 0,
        all_kept(items),
    ensures
        all_clean(below_header(items, padding(n))),
    decreases items, 2int,
{
    let block = below_header(items, padding(n));
    lemma_deeper(n);
    lemma_padding_clean(n + 1);
    if is_table(items) {
        let columns = names(items[0]->Object_0);
        assert forall|i: int| 0 <= i < block.len() implies clean(#[trigger] block[i]) by {
            lemma_table_names(items, i);
            assert(kept(items[i]));
            let text = join(row_cells(columns, items[i]), ","@);
            assert(is_space('\r'));
            if columns.len() > 0 {
                lemma_row(items[i], columns);
                lemma_clean(padding(n + 1), text);
            } else {
                assert(block[i] =~= padding(n + 1));
                assert(block[i].last() == ' ');
            }
        }
    } else if all_scalar(items) {
    } else {
        lemma_list_clean(items, n + 1);
    }
}

proof fn lemma_all_clean(a: Seq<Seq<char>>, b: Seq<Seq<char>>)
    requires
        all_clean(a),
        all_clean(b),
    ensures
        all_clean(a + b),
{
    let s = a + b;
    assert forall|i: int| 0 <= i < s.len() implies clean(#[trigger] s[i]) by {
        if i < a.len() {
            assert(s[i] == a[i]);
        } else {
            assert(s[i] == b[i - a.len()]);
        }
    }
}

proof fn lemma_list_clean(items: Seq<JsonModel>, n: nat)
    requires
        all_kept(items),
    ensures
        all_clean(list_lines(items, padding(n))),
    decreases items, 1int,
{
    if items.len() > 0 {
        let rest = items.drop_first();
        assert forall|i: int| 0 <= i < rest.len() implies kept(#[trigger] rest[i]) by {
            assert(rest[i] == items[i + 1]);
        }
        assert(kept(items[0]));
        lemma_item_clean(items[0], n);
        lemma_list_clean(rest, n);
        lemma_all_clean(item_lines(items[0], padding(n)), list_lines(rest, padding(n)));
    }
}

proof fn lemma_item_clean(item: JsonModel, n: nat)
    requires
        kept(item),
    ensures
        all_clean(item_lines(item, padding(n))),
    decreases item, 0int,
{
    lemma_literals();
    lemma_padding_clean(n);
    let pad = padding(n);
    assert(is_space('\r'));
    lemma_item_lines(item, n);
    if is_empty_object(item) {
        lemma_clean(pad, "-"@);
    } else {
        let text = "- "@ + item_text(item);
        lemma_no_newline("- "@, item_text(item));
        assert(text.last() == item_text(item).last());
        lemma_clean(pad, text);
        match item {
            JsonModel::Object(fs) => {
                lemma_kept_fields(fs);
                let more = fs.drop_first();
                assert(kept(fs[0].1));
                assert forall|i: int| 0 <= i < more.len() implies kept((#[trigger] more[i]).1) by {
                    assert(more[i] == fs[i + 1]);
                }
                assert(decreases_to!(fs => fs[0]));
                assert(more =~= fs.subrange(1, fs.len() as int));
                assert(decreases_to!(fs => fs.subrange(1, fs.len() as int)));
                lemma_field_below_clean(fs[0].1, n + 1);
                lemma_fields_clean(more, n + 1);
                lemma_all_clean(field_below(fs[0].1, n + 1), field_lines(more, padding(n + 1)));
            },
            JsonModel::Array(items) => {
                if items.len() > 0 {
                    lemma_kept_items(items);
                    lemma_below_clean(items, n);
                }
            },
            _ => {},
        }
        lemma_all_clean(seq![pad + text], item_below(item, n));
    }
}

proof fn lemma_fields_clean(fs: Seq<(Seq<char>, JsonModel)>, n: nat)
    requires
        fields_kept(fs),
    ensures
        all_clean(field_lines(fs, padding(n))),
    decreases fs, 2int,
{
    if fs.len() > 0 {
        let rest = fs.drop_first();
        let key = fs[0].0;
        let value = fs[0].1;
        assert(kept(fs[0].1));
        assert forall|i: int| 0 <= i < rest.len() implies kept((#[trigger] rest[i]).1) by {
            assert(rest[i] == fs[i + 1]);
        }
        let text = field_text(key, value);
        assert(is_space('\r'));
        lemma_field_lines(key, value, n);
        lemma_padding_clean(n);
        lemma_clean(padding(n), text);
        assert(decreases_to!(fs => fs[0]));
        lemma_field_below_clean(value, n);
        lemma_all_clean(seq![padding(n) + text], field_below(value, n));
        lemma_fields_clean(rest, n);
        lemma_all_clean(one_field_lines(key, value, padding(n)), field_lines(rest, padding(n)));
    }
}

proof fn lemma_field_below_clean(value: JsonModel, n: nat)
    requires
        kept(value),
    ensures
        all_clean(field_below(value, n)),
    decreases value, 3int,
{
    match value {
        JsonModel::Object(nested) => {
            lemma_kept_fields(nested);
            lemma_fields_clean(nested, n + 1);
        },
        JsonModel::Array(items) => {
            if items.len() > 0 {
                lemma_kept_items(items);
                lemma_below_clean(items, n);
            }
        },
        _ => {},
    }
}

// ---------------------------------------------------------------------------
// The laws
// ---------------------------------------------------------------------------

/// A string is written as one token that reads back as that string: none is taken for a number, a word or
/// an array, and none is altered.
pub proof fn strings_read_back(s: Seq<char>)
    ensures
        parse_scalar(scalar_text(JsonModel::Text(s))) == JsonModel::Text(s),
{
    lemma_token(JsonModel::Text(s));
}

/// The texts of scalars that are joined by commas are split into just those texts again: a comma or an
/// escaped quote inside a quoted string does not end its cell.
pub proof fn joined_cells_split(values: Seq<JsonModel>)
    requires
        values.len() > 0,
        forall|i: int| 0 <= i < values.len() ==> (#[trigger] values[i]).is_scalar() && well_formed(values[i]),
    ensures
        cells(join(scalar_texts(values), ","@), false, seq![]) == scalar_texts(values),
{
    let toks = scalar_texts(values);
    assert forall|i: int| 0 <= i < toks.len() implies whole(#[trigger] toks[i]) by {
        let m = values[i];
        assert(m.is_scalar() && well_formed(m));
        match m {
            JsonModel::Float(t) => {
                lemma_float_whole(t);
            },
            _ => {
                lemma_token(m);
            },
        }
    }
    lemma_cells_join(toks);
}

/// Decoding the TOON form of a value gives the value back. A double that is written as an integer is read
/// as one, and so is left out.
pub proof fn round_trip(value: JsonModel)
    requires
        well_formed(value),
        no_integer_doubles(value),
    ensures
        toon_value(toon_text(value)) == Ok::<JsonModel, Seq<char>>(value),
{
    lemma_literals();
    lemma_deeper(0);
    assert(is_space('\r'));
    assert(kept(value));
    let text = toon_text(value);
    match value {
        JsonModel::Array(items) => {
            if items.len() == 0 {
                assert(items =~= seq![]);
                lemma_absent("[]"@, '\n');
                assert(split_lines("[]"@) =~= seq!["[]"@]);
                assert(trim("[]"@) == "[]"@);
            } else {
                lemma_kept_items(items);
                lemma_array_lines(items, padding(0), ""@);
                let h = header_tail(items);
                let below = below_header(items, padding(0));
                let ls = array_lines(items, padding(0), ""@);
                assert(padding(0) + (""@ + h) =~= h);
                assert(ls =~= seq![h] + below);
                lemma_header_tail(items);
                lemma_header_tight(items);
                lemma_below_clean(items, 0);
                lemma_clean(""@, h);
                assert(""@ + h =~= h);
                lemma_all_clean(seq![h], below);
                lemma_lines_join(ls);
                assert(holds_at(ls, 1, below)) by {
                    assert(ls.subrange(1, 1 + below.len() as int) =~= below);
                }
                lemma_header_not_empty(items);
                lemma_header(
                    items,
                    0,
                    ls,
                    0,
                    "missing ']' in array header: "@ + h,
                    "bad array length in: "@ + h,
                );
            }
        },
        JsonModel::Object(fs) => {
            let ls = field_lines(fs, ""@);
            lemma_kept_fields(fs);
            if fs.len() == 0 {
                assert(ls =~= seq![]);
                assert(fs =~= seq![]);
                assert(text =~= seq![]);
                assert(split_lines(text) =~= seq![]);
            } else {
                lemma_fields_clean(fs, 0);
                lemma_field_first_line(fs, 0);
                lemma_lines_join(ls);
                assert(ls.subrange(0, ls.len() as int) =~= ls);
                let none = Seq::<(Seq<char>, JsonModel)>::empty();
                assert(none + fs =~= fs);
                lemma_fields(fs, 0, ls, 0, none);
                assert(kept(fs[0].1));
                let first = field_text(fs[0].0, fs[0].1);
                lemma_field_tail(fs[0].0, fs[0].1);
                assert(""@ + first =~= first);
                assert(trim(first) == first && trim_start(first) == first);
            }
        },
        _ => {
            lemma_token(value);
            lemma_absent(text, '\n');
            assert(split_lines(text) =~= seq![text]);
            assert(trim(text) == text && trim_start(text) == text);
        },
    }
}

} // verus!
