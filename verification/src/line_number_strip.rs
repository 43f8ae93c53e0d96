//! Line numbers that a file viewer put before every line come off, or none does.
use crate::patterns::{line_number_group, Pattern};
use crate::text::{
    all_clean, all_digits, breaks_end_lines, char_count, clean, copy_str, dec, digit_run,
    digits_value, first_is, has_char, is_digit, join, join_texts, last_is, lemma_dec,
    lemma_join_first, lemma_lines_join, lines, option_view, parse_u64, parse_unsigned, slice_text,
    split_lines, text_last_is, to_chars, views,
};
use vstd::prelude::*;

verus! {

/// Fewer lines than this keep their numbers.
pub const MIN_LINES: u64 = 5;

/// The number that a line starts with: decimal digits and a tab.
pub open spec fn leading_number(line: Seq<char>) -> Option<nat> {
    let k = digit_run(line);
    if k > 0 && first_is(line.skip(k), '\t') {
        parse_unsigned(line.take(k), u64::MAX as nat)
    } else {
        None
    }
}

/// The lines are numbered from 1 on, without a gap.
pub open spec fn is_numbered(lines: Seq<Seq<char>>) -> bool {
    forall|i: int| 0 <= i < lines.len() ==> leading_number(#[trigger] lines[i]) == Some((i + 1) as nat)
}

/// A line without its number and the tab.
pub open spec fn without_number(line: Seq<char>) -> Seq<char> {
    line.skip(digit_run(line) + 1)
}

pub open spec fn without_numbers(lines: Seq<Seq<char>>) -> Seq<Seq<char>> {
    Seq::new(lines.len(), |i: int| without_number(lines[i]))
}

/// Whether the numbers come off.
pub open spec fn is_read_output(text: Seq<char>) -> bool {
    split_lines(text).len() >= MIN_LINES && is_numbered(split_lines(text))
}

/// The text without line numbers, or as it is where not all lines are numbered.
pub open spec fn stripped_text(text: Seq<char>) -> Seq<char> {
    if is_read_output(text) {
        let body = join(without_numbers(split_lines(text)), "\n"@);
        if last_is(text, '\n') {
            body.push('\n')
        } else {
            body
        }
    } else {
        text
    }
}

proof fn lemma_digit_run(s: Seq<char>)
    ensures
        0 <= digit_run(s) <= s.len(),
        forall|i: int| 0 <= i < digit_run(s) ==> is_digit(#[trigger] s[i]),
        digit_run(s) < s.len() ==> !is_digit(s[digit_run(s)]),
    decreases s.len(),
{
    if s.len() > 0 && is_digit(s[0]) {
        let r = s.drop_first();
        lemma_digit_run(r);
        assert forall|i: int| 0 <= i < digit_run(s) implies is_digit(#[trigger] s[i]) by {
            if i > 0 {
                assert(s[i] == r[i - 1]);
            }
        }
    }
}

/// What the pattern captures reads as the number of the line.
proof fn lemma_group_number(line: Seq<char>, group: Option<Seq<char>>)
    requires
        line_number_group(line, group),
    ensures
        leading_number(line) == (match group {
            Some(g) => parse_unsigned(g, u64::MAX as nat),
            None => None,
        }),
        leading_number(line) is Some ==> (group matches Some(g) && g.len() == digit_run(line)),
{
    lemma_digit_run(line);
    let k = digit_run(line);
    match group {
        Some(g) => {
            assert(g[0] != '+');
            let head = line.take(g.len() as int + 1);
            assert(head == g.push('\t'));
            if all_digits(g) {
                assert forall|i: int| 0 <= i < g.len() implies is_digit(#[trigger] line[i]) by {
                    assert(head[i] == g[i]);
                }
                assert(head[g.len() as int] == '\t');
                assert(line[g.len() as int] == '\t');
                assert(k == g.len()) by {
                    if k < g.len() {
                        assert(is_digit(line[k]));
                    } else if k > g.len() {
                        assert(is_digit(line[g.len() as int]));
                    }
                }
                assert(line.take(k) =~= g);
                assert(line.skip(k)[0] == '\t');
            }
            if k > 0 && first_is(line.skip(k), '\t') {
                assert(g == line.take(k));
                assert(all_digits(g));
            }
        },
        None => {},
    }
}

/// The text without the line numbers of a file viewer, and whether there were any to take off.
pub fn strip_read_tool_line_numbers(text: &str) -> (r: (String, bool))
    ensures
        r.0@ == stripped_text(text@),
        r.1 == is_read_output(text@),
{
    let ls = lines(text);
    let ghost all = views(ls@);
    let total: usize = ls.len();
    if (total as u64) < MIN_LINES {
        return (copy_str(text), false);
    }
    let groups = Pattern::LineNumber.group_each(&ls);
    let mut stripped: Vec<String> = Vec::new();
    let mut i: usize = 0;
    while i < total
        invariant
            i <= total == ls@.len(),
            all == views(ls@),
            groups@.len() == ls@.len(),
            forall|j: int|
                0 <= j < groups@.len() ==> line_number_group(ls@[j]@, option_view(#[trigger] groups@[j])),
            forall|j: int| 0 <= j < i ==> leading_number(#[trigger] all[j]) == Some((j + 1) as nat),
            stripped@.len() == i,
            forall|j: int| 0 <= j < i ==> (#[trigger] stripped@[j])@ == without_number(all[j]),
            all == split_lines(text@),
        decreases total - i,
    {
        let ghost group = option_view(groups@[i as int]);
        assert(all[i as int] == ls@[i as int]@);
        proof {
            lemma_group_number(all[i as int], group);
        }
        let number = match &groups[i] {
            Some(g) => parse_u64(g.as_str()),
            None => None,
        };
        let expected = match number {
            Some(n) => n == i as u64 + 1,
            None => false,
        };
        if !expected {
            assert(leading_number(all[i as int]) != Some((i + 1) as nat));
            return (copy_str(text), false);
        }
        let v = to_chars(ls[i].as_str());
        let width: usize = match &groups[i] {
            Some(g) => char_count(g.as_str()),
            None => 0,
        };
        proof {
            lemma_digit_run(all[i as int]);
            assert(width == digit_run(all[i as int]));
            assert(first_is(all[i as int].skip(width as int), '\t'));
            assert(width < v@.len());
        }
        let rest = slice_text(&v, width + 1, v.len());
        assert(rest@ =~= without_number(all[i as int]));
        stripped.push(rest);
        i = i + 1;
    }
    assert(views(stripped@) =~= without_numbers(all));
    let mut out = join_texts(&stripped, "\n");
    if text_last_is(text, '\n') {
        out.push('\n');
    }
    (out, true)
}

// ---------------------------------------------------------------------------
// Laws
// ---------------------------------------------------------------------------

/// The lines with their numbers before them.
pub open spec fn with_numbers(lines: Seq<Seq<char>>) -> Seq<Seq<char>> {
    Seq::new(lines.len(), |i: int| dec((i + 1) as nat) + "\t"@ + lines[i])
}

/// Where one line is not numbered, nothing comes off.
pub proof fn never_partial(text: Seq<char>, i: int)
    requires
        0 <= i < split_lines(text).len(),
        leading_number(split_lines(text)[i]) != Some((i + 1) as nat),
    ensures
        stripped_text(text) == text,
        !is_read_output(text),
{
}

/// Taking the numbers off gives back the lines that were numbered.
pub proof fn numbering_is_undone(lines: Seq<Seq<char>>)
    requires
        MIN_LINES <= lines.len() <= u64::MAX,
        forall|i: int| 0 <= i < lines.len() ==> !has_char(#[trigger] lines[i], '\n') && !last_is(lines[i], '\r'),
    ensures
        is_read_output(join(with_numbers(lines), "\n"@)),
        stripped_text(join(with_numbers(lines), "\n"@)) == join(lines, "\n"@),
{
    reveal_strlit("\t");
    let ns = with_numbers(lines);
    let text = join(ns, "\n"@);
    assert forall|i: int| 0 <= i < ns.len() implies clean(#[trigger] ns[i]) && leading_number(ns[i]) == Some(
        (i + 1) as nat,
    ) && without_number(ns[i]) == lines[i] by {
        let d = dec((i + 1) as nat);
        lemma_dec((i + 1) as nat);
        let line = ns[i];
        assert("\t"@ =~= seq!['\t']);
        assert(line =~= d + (seq!['\t'] + lines[i]));
        assert(!has_char(lines[i], '\n') && !last_is(lines[i], '\r'));
        lemma_digit_run(line);
        assert forall|j: int| 0 <= j < d.len() implies is_digit(#[trigger] line[j]) by {
            assert(line[j] == d[j]);
        }
        assert(line[d.len() as int] == '\t');
        let k = digit_run(line);
        assert(k == d.len()) by {
            if k < d.len() {
                assert(is_digit(line[k]));
            } else if k > d.len() {
                assert(is_digit(line[d.len() as int]));
            }
        }
        assert(line.take(k) =~= d);
        assert(line.skip(k)[0] == '\t');
        assert(is_digit(d[0]));
        assert(line.skip(k + 1) =~= lines[i]);
        if line.contains('\n') {
            let j = choose|j: int| 0 <= j < line.len() && line[j] == '\n';
            if j < d.len() {
                assert(is_digit(line[j]));
            } else if j > d.len() {
                assert(lines[i][j - d.len() - 1] == '\n');
            }
        }
        if lines[i].len() > 0 {
            assert(line.last() == lines[i].last());
        } else {
            assert(line.last() == '\t');
        }
    }
    lemma_lines_join(ns);
    assert(without_numbers(ns) =~= lines);
    lemma_join_last(ns);
    assert(clean(ns[ns.len() - 1]));
    assert(text.last() == ns.last().last());
    if last_is(text, '\n') {
        assert(ns.last().contains(ns.last().last()));
    }
}

proof fn lemma_join_last(parts: Seq<Seq<char>>)
    requires
        parts.len() > 0,
        parts.last().len() > 0,
    ensures
        join(parts, "\n"@).len() > 0,
        join(parts, "\n"@).last() == parts.last().last(),
{
    if parts.len() > 1 {
        let s = join(parts.drop_last(), "\n"@) + "\n"@;
        assert(join(parts, "\n"@) =~= s + parts.last());
    }
}

/// Where numbers come off there are at least five lines, and what comes off each is its number in
/// digits and a tab.
pub proof fn only_numbers_come_off(text: Seq<char>, i: int)
    requires
        is_read_output(text),
        0 <= i < split_lines(text).len(),
    ensures
        split_lines(text).len() >= 5,
        exists|digits: Seq<char>|
            digits.len() > 0 && all_digits(digits) && digits_value(digits) == i + 1
                && split_lines(text)[i] == #[trigger] (digits + seq!['\t'] + without_numbers(
                split_lines(text),
            )[i]),
        last_is(text, '\n') ==> stripped_text(text) == join(
            without_numbers(split_lines(text)),
            "\n"@,
        ) + seq!['\n'],
        !last_is(text, '\n') ==> stripped_text(text) == join(
            without_numbers(split_lines(text)),
            "\n"@,
        ),
{
    let ls = split_lines(text);
    let line = ls[i];
    let k = digit_run(line);
    lemma_digit_run(line);
    assert(leading_number(line) == Some((i + 1) as nat));
    let digits = line.take(k);
    assert(is_digit(digits[0])) by {
        assert(is_digit(line[0]));
    }
    assert(line.skip(k)[0] == '\t');
    assert(line[k] == '\t');
    assert(line =~= digits + seq!['\t'] + without_number(line));
    assert(without_numbers(ls)[i] == without_number(line));
    assert(line == digits + seq!['\t'] + without_numbers(ls)[i]);
    assert(join(without_numbers(ls), "\n"@).push('\n') =~= join(without_numbers(ls), "\n"@) + seq!['\n']);
}

proof fn lemma_ended_lines(ls: Seq<Seq<char>>)
    requires
        ls.len() > 0,
        all_clean(ls),
    ensures
        split_lines(join(ls, "\n"@) + seq!['\n']) == ls,
    decreases ls.len(),
{
    reveal_strlit("\n");
    assert("\n"@ =~= seq!['\n']);
    assert(clean(ls[0]));
    if ls.len() == 1 {
        breaks_end_lines(ls[0], seq![]);
        assert(ls[0] + seq!['\n'] + Seq::<char>::empty() =~= ls[0] + seq!['\n']);
        assert(split_lines(Seq::<char>::empty()) =~= Seq::<Seq<char>>::empty());
        assert(seq![ls[0]] + Seq::<Seq<char>>::empty() =~= ls);
    } else {
        let rest = ls.drop_first();
        assert forall|i: int| 0 <= i < rest.len() implies clean(#[trigger] rest[i]) by {
            assert(rest[i] == ls[i + 1]);
        }
        lemma_ended_lines(rest);
        lemma_join_first(ls, "\n"@);
        let tail = join(rest, "\n"@) + seq!['\n'];
        breaks_end_lines(ls[0], tail);
        assert(join(ls, "\n"@) + seq!['\n'] =~= ls[0] + seq!['\n'] + tail);
        assert(seq![ls[0]] + rest =~= ls);
    }
}

/// Five numbered lines are enough for the numbers to come off, whether a break ends the last of them or
/// not, and fewer lines keep them.
pub proof fn five_lines_are_enough(lines: Seq<Seq<char>>, text: Seq<char>)
    requires
        5 <= lines.len() <= u64::MAX,
        forall|i: int|
            0 <= i < lines.len() ==> !has_char(#[trigger] lines[i], '\n') && !last_is(lines[i], '\r'),
    ensures
        stripped_text(join(with_numbers(lines), "\n"@)) == join(lines, "\n"@),
        stripped_text(join(with_numbers(lines), "\n"@) + seq!['\n']) == join(lines, "\n"@) + seq!['\n'],
        split_lines(text).len() < 5 ==> stripped_text(text) == text && !is_read_output(text),
{
    numbering_is_undone(lines);
    let ns = with_numbers(lines);
    let bare = join(ns, "\n"@);
    let ended = bare + seq!['\n'];
    assert forall|i: int| 0 <= i < ns.len() implies clean(#[trigger] ns[i]) by {
        lemma_numbered_clean(lines, i);
    }
    lemma_lines_join(ns);
    lemma_ended_lines(ns);
    assert(split_lines(bare) == split_lines(ended));
    assert(is_numbered(split_lines(bare)));
    assert(last_is(ended, '\n'));
    only_numbers_come_off(bare, 0);
    only_numbers_come_off(ended, 0);
    lemma_join_last(ns);
    assert(clean(ns[ns.len() - 1]));
    lemma_numbered_clean(lines, ns.len() - 1);
    if last_is(bare, '\n') {
        assert(ns.last().contains(ns.last().last()));
    }
}

proof fn lemma_numbered_clean(lines: Seq<Seq<char>>, i: int)
    requires
        0 <= i < lines.len(),
        !has_char(lines[i], '\n') && !last_is(lines[i], '\r'),
    ensures
        clean(with_numbers(lines)[i]),
        with_numbers(lines)[i].len() > 0,
{
    reveal_strlit("\t");
    let d = dec((i + 1) as nat);
    lemma_dec((i + 1) as nat);
    let line = with_numbers(lines)[i];
    assert("\t"@ =~= seq!['\t']);
    assert(line =~= d + (seq!['\t'] + lines[i]));
    assert(line[d.len() as int] == '\t');
    if line.contains('\n') {
        let j = choose|j: int| 0 <= j < line.len() && line[j] == '\n';
        if j < d.len() {
            assert(is_digit(d[j]));
        } else if j > d.len() {
            assert(lines[i][j - d.len() - 1] == '\n');
        }
    }
    if lines[i].len() > 0 {
        assert(line.last() == lines[i].last());
    } else {
        assert(line.last() == '\t');
    }
}

} // verus!
