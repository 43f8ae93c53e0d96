//! Runs of identical lines become one line and a note.
use crate::text::{
    byte_len, dec, decimal_usize, index_of, is_digit, lemma_byte_len_add, lemma_byte_len_bounds,
    lemma_dec, lemma_index_of, lines, same_text, split_lines, strip_cr, views,
};
use vstd::prelude::*;

verus! {

/// Runs of more than this many identical lines collapse.
pub const DEDUPE_RUN_THRESHOLD: usize = 5;

/// How many of the lines from the first on are the same as the first.
pub open spec fn run_length(lines: Seq<Seq<char>>) -> nat
    decreases lines.len(),
{
    if lines.len() == 0 {
        0
    } else if lines.len() >= 2 && lines[1] == lines[0] {
        1 + run_length(lines.drop_first())
    } else {
        1
    }
}

pub open spec fn collapse_note(count: nat) -> Seq<char> {
    "[... squishi pruned: "@ + dec(count) + " identical lines collapsed ...]"@
}

/// The lines with each long run replaced by its first line and a note.
pub open spec fn collapse_runs(lines: Seq<Seq<char>>) -> Seq<Seq<char>>
    decreases lines.len(),
    via collapse_runs_decreases
{
    if lines.len() == 0 {
        seq![]
    } else {
        let n = run_length(lines);
        if n > DEDUPE_RUN_THRESHOLD {
            seq![lines[0], collapse_note((n - 1) as nat)] + collapse_runs(lines.skip(n as int))
        } else {
            seq![lines[0]] + collapse_runs(lines.drop_first())
        }
    }
}

#[via_fn]
proof fn collapse_runs_decreases(lines: Seq<Seq<char>>) {
    lemma_run_length(lines);
}

proof fn lemma_run_length(lines: Seq<Seq<char>>)
    ensures
        run_length(lines) <= lines.len(),
        lines.len() > 0 ==> run_length(lines) > 0,
        forall|i: int| 0 <= i < run_length(lines) ==> #[trigger] lines[i] == lines[0],
    decreases lines.len(),
{
    if lines.len() >= 2 && lines[1] == lines[0] {
        let rest = lines.drop_first();
        lemma_run_length(rest);
        assert forall|i: int| 0 <= i < run_length(lines) implies #[trigger] lines[i] == lines[0] by {
            if i > 0 {
                assert(rest[i - 1] == lines[i]);
            }
        }
    }
}

/// The lines, each with a newline behind it.
pub open spec fn terminated(lines: Seq<Seq<char>>) -> Seq<char>
    decreases lines.len(),
{
    if lines.len() == 0 {
        seq![]
    } else {
        lines[0].push('\n') + terminated(lines.drop_first())
    }
}

fn run_at(lines: &Vec<String>, at: usize) -> (n: usize)
    requires
        at < lines@.len(),
    ensures
        n == run_length(views(lines@).skip(at as int)),
        1 <= n <= lines@.len() - at,
{
    let ghost ls = views(lines@);
    let ghost rest = ls.skip(at as int);
    let total: usize = lines.len();
    let mut n: usize = 1;
    while at + n < total && same_text(lines[at + n].as_str(), lines[at + n - 1].as_str())
        invariant
            1 <= n,
            at + n <= total == lines@.len(),
            ls == views(lines@),
            rest == ls.skip(at as int),
            run_length(rest) == n - 1 + run_length(ls.skip(at + n - 1)),
        decreases total - at - n,
    {
        let ghost here = ls.skip(at + n - 1);
        assert(here[0] == lines@[at + n - 1]@);
        assert(here[1] == lines@[at + n]@);
        assert(here.drop_first() =~= ls.skip(at + n));
        n = n + 1;
    }
    proof {
        let here = ls.skip(at + n - 1);
        assert(here[0] == lines@[at + n - 1]@);
        if here.len() >= 2 {
            assert(here[1] == lines@[at + n]@);
        }
        assert(run_length(here) == 1);
    }
    n
}

/// The text with long runs of identical lines collapsed, each line ended by a newline.
pub fn dedupe_line_runs(content: &str) -> (out: String)
    ensures
        out@ == terminated(collapse_runs(split_lines(content@))),
{
    let ls = lines(content);
    let ghost all = views(ls@);
    let mut out = String::new();
    let mut i: usize = 0;
    assert(all.skip(0) =~= all);
    assert(out@ + terminated(collapse_runs(all)) =~= terminated(collapse_runs(all)));
    while i < ls.len()
        invariant
            i <= ls@.len(),
            all == views(ls@),
            out@ + terminated(collapse_runs(all.skip(i as int))) == terminated(collapse_runs(all)),
        decreases ls.len() - i,
    {
        let ghost rest = all.skip(i as int);
        let ghost before = out@;
        let n = run_at(&ls, i);
        assert(rest[0] == ls@[i as int]@);
        out.append(ls[i].as_str());
        out.push('\n');
        assert(out@ =~= before + rest[0].push('\n'));
        if n > DEDUPE_RUN_THRESHOLD {
            let ghost mid = out@;
            out.append("[... squishi pruned: ");
            let count = decimal_usize(n - 1);
            out.append(count.as_str());
            out.append(" identical lines collapsed ...]");
            out.push('\n');
            let ghost note = collapse_note((n - 1) as nat);
            assert(out@ =~= mid + note.push('\n'));
            assert(rest.skip(n as int) =~= all.skip(i + n));
            let ghost tail = collapse_runs(all.skip(i + n));
            let ghost whole = seq![rest[0], note] + tail;
            assert(whole.drop_first() =~= seq![note] + tail);
            assert((seq![note] + tail).drop_first() =~= tail);
            assert(terminated(seq![note] + tail) == note.push('\n') + terminated(tail));
            assert(out@ + terminated(tail) =~= before + terminated(whole));
            i = i + n;
        } else {
            assert(rest.drop_first() =~= all.skip(i + 1));
            let ghost tail = collapse_runs(all.skip(i + 1));
            let ghost whole = seq![rest[0]] + tail;
            assert(whole.drop_first() =~= tail);
            assert(out@ + terminated(tail) =~= before + terminated(whole));
            i = i + 1;
        }
    }
    assert(all.skip(i as int) =~= seq![]);
    assert(out@ =~= terminated(collapse_runs(all)));
    out
}

// ---------------------------------------------------------------------------
// Laws
// ---------------------------------------------------------------------------

/// No run of identical lines is long enough to collapse.
pub open spec fn no_long_run(lines: Seq<Seq<char>>) -> bool
    decreases lines.len(),
{
    lines.len() > 0 ==> run_length(lines) <= DEDUPE_RUN_THRESHOLD && no_long_run(lines.drop_first())
}

/// Lines without a long run stay as they are.
pub proof fn short_runs_stay(lines: Seq<Seq<char>>)
    requires
        no_long_run(lines),
    ensures
        collapse_runs(lines) == lines,
    decreases lines.len(),
{
    if lines.len() > 0 {
        short_runs_stay(lines.drop_first());
        assert(seq![lines[0]] + lines.drop_first() =~= lines);
    } else {
        assert(collapse_runs(lines) =~= lines);
    }
}

/// Every line of the input is a line of the output.
pub proof fn no_line_is_lost(lines: Seq<Seq<char>>, i: int)
    requires
        0 <= i < lines.len(),
    ensures
        collapse_runs(lines).contains(lines[i]),
    decreases lines.len(),
{
    let out = collapse_runs(lines);
    lemma_run_length(lines);
    let n = run_length(lines) as int;
    assert(out[0] == lines[0]);
    if n > DEDUPE_RUN_THRESHOLD {
        if i >= n {
            let rest = lines.skip(n);
            no_line_is_lost(rest, i - n);
            let tail = collapse_runs(rest);
            let k = choose|k: int| 0 <= k < tail.len() && tail[k] == rest[i - n];
            assert(out[k + 2] == lines[i]);
        }
    } else if i > 0 {
        let rest = lines.drop_first();
        no_line_is_lost(rest, i - 1);
        let tail = collapse_runs(rest);
        let k = choose|k: int| 0 <= k < tail.len() && tail[k] == rest[i - 1];
        assert(out[k + 1] == lines[i]);
    }
}

/// There are never more lines than before.
pub proof fn never_more_lines(lines: Seq<Seq<char>>)
    ensures
        collapse_runs(lines).len() <= lines.len(),
    decreases lines.len(),
{
    if lines.len() > 0 {
        lemma_run_length(lines);
        let n = run_length(lines) as int;
        if n > DEDUPE_RUN_THRESHOLD {
            never_more_lines(lines.skip(n));
        } else {
            never_more_lines(lines.drop_first());
        }
    }
}

/// The first line of every run that collapses has at least ten characters.
pub open spec fn long_runs_are_wide(lines: Seq<Seq<char>>) -> bool
    decreases lines.len(),
{
    lines.len() > 0 ==> (run_length(lines) > DEDUPE_RUN_THRESHOLD ==> lines[0].len() >= 10)
        && long_runs_are_wide(lines.drop_first())
}

/// Where the lines that repeat have at least ten characters, the text takes no more bytes than
/// before, but for one newline at its end.
pub proof fn wide_runs_never_grow(text: Seq<char>)
    requires
        long_runs_are_wide(split_lines(text)),
    ensures
        byte_len(terminated(collapse_runs(split_lines(text)))) <= byte_len(text) + 1,
{
    lemma_collapsed_size(split_lines(text));
    lemma_lines_size(text);
}

/// The size of a line with a newline behind it.
proof fn lemma_terminated_first(line: Seq<char>, rest: Seq<Seq<char>>)
    ensures
        byte_len(terminated(seq![line] + rest)) == byte_len(line) + 1 + byte_len(terminated(rest)),
{
    let all = seq![line] + rest;
    assert(all.drop_first() =~= rest);
    assert(line.push('\n') =~= line + seq!['\n']);
    lemma_byte_len_add(line.push('\n'), terminated(rest));
    lemma_byte_len_add(line, seq!['\n']);
    lemma_byte_len_bounds(seq!['\n']);
}

proof fn lemma_lines_size(text: Seq<char>)
    ensures
        byte_len(terminated(split_lines(text))) <= byte_len(text) + 1,
    decreases text.len(),
{
    if text.len() > 0 {
        let k = index_of(text, '\n');
        lemma_index_of(text, '\n');
        if k == text.len() {
            lemma_terminated_first(text, seq![]);
            assert(seq![text] + Seq::<Seq<char>>::empty() =~= seq![text]);
            assert(byte_len(terminated(Seq::<Seq<char>>::empty())) == 0);
        } else {
            let head = text.take(k);
            let tail = text.skip(k + 1);
            let line = strip_cr(head);
            lemma_lines_size(tail);
            lemma_terminated_first(line, split_lines(tail));
            assert(text =~= head + (seq!['\n'] + tail));
            lemma_byte_len_add(head, seq!['\n'] + tail);
            lemma_byte_len_add(seq!['\n'], tail);
            lemma_byte_len_bounds(seq!['\n']);
            if line != head {
                assert(head =~= line + seq!['\r']);
                lemma_byte_len_add(line, seq!['\r']);
            }
        }
    }
}

/// The first `n` of the lines take at least `n` times the bytes of the first one.
proof fn lemma_run_size(lines: Seq<Seq<char>>, n: int)
    requires
        0 <= n <= run_length(lines),
        lines.len() > 0,
    ensures
        n <= lines.len(),
        byte_len(terminated(lines)) == n * (byte_len(lines[0]) + 1) + byte_len(
            terminated(lines.skip(n)),
        ),
    decreases n,
{
    lemma_run_length(lines);
    let w = byte_len(lines[0]) + 1;
    assert(0 * w == 0 && 1 * w == w) by (nonlinear_arith);
    if n == 0 {
        assert(lines.skip(0) =~= lines);
    } else {
        let rest = lines.drop_first();
        assert(seq![lines[0]] + rest =~= lines);
        lemma_terminated_first(lines[0], rest);
        if n == 1 {
            assert(lines.skip(1) =~= rest);
        } else {
            lemma_run_size(rest, n - 1);
            assert(rest.skip(n - 1) =~= lines.skip(n));
            assert(rest[0] == lines[0]);
            assert(w + (n - 1) * w == n * w) by (nonlinear_arith);
            assert(byte_len(terminated(rest)) == (n - 1) * w + byte_len(terminated(lines.skip(n))));
        }
    }
}

/// A count has no more digits than it counts.
proof fn lemma_short_count(n: nat)
    requires
        n > 0,
    ensures
        dec(n).len() <= n,
        byte_len(dec(n)) == dec(n).len(),
    decreases n,
{
    lemma_dec(n);
    assert forall|i: int| 0 <= i < dec(n).len() implies '\u{7f}' >= #[trigger] dec(n)[i] by {
        assert(is_digit(dec(n)[i]));
    }
    lemma_byte_len_bounds(dec(n));
    if n >= 10 {
        lemma_short_count(n / 10);
    }
}

proof fn lemma_note_size(count: nat)
    requires
        count >= 5,
    ensures
        byte_len(collapse_note(count)) + 1 <= 11 * count,
{
    let a = "[... squishi pruned: "@;
    let b = " identical lines collapsed ...]"@;
    reveal_strlit("[... squishi pruned: ");
    reveal_strlit(" identical lines collapsed ...]");
    lemma_byte_len_bounds(a);
    lemma_byte_len_bounds(b);
    lemma_byte_len_add(a + dec(count), b);
    lemma_byte_len_add(a, dec(count));
    lemma_short_count(count);
    if count < 10 {
        assert(dec(count).len() == 1);
    }
}

proof fn lemma_collapsed_size(lines: Seq<Seq<char>>)
    requires
        long_runs_are_wide(lines),
    ensures
        byte_len(terminated(collapse_runs(lines))) <= byte_len(terminated(lines)),
    decreases lines.len(),
{
    if lines.len() > 0 {
        let n = run_length(lines) as int;
        let rest = lines.drop_first();
        assert(seq![lines[0]] + rest =~= lines);
        lemma_run_length(lines);
        if n > DEDUPE_RUN_THRESHOLD {
            let tail = collapse_runs(lines.skip(n));
            let note = collapse_note((n - 1) as nat);
            let w = byte_len(lines[0]) + 1;
            lemma_wide_tail(lines, n);
            lemma_collapsed_size(lines.skip(n));
            assert(seq![lines[0], note] + tail =~= seq![lines[0]] + (seq![note] + tail));
            lemma_terminated_first(lines[0], seq![note] + tail);
            lemma_terminated_first(note, tail);
            lemma_run_size(lines, n);
            lemma_note_size((n - 1) as nat);
            lemma_byte_len_bounds(lines[0]);
            assert(11 * (n - 1) + w <= n * w) by (nonlinear_arith)
                requires
                    w >= 11,
                    n > 1,
            ;
        } else {
            lemma_collapsed_size(rest);
            lemma_terminated_first(lines[0], rest);
            lemma_terminated_first(lines[0], collapse_runs(rest));
        }
    }
}

proof fn lemma_wide_tail(lines: Seq<Seq<char>>, n: int)
    requires
        long_runs_are_wide(lines),
        0 <= n <= lines.len(),
    ensures
        long_runs_are_wide(lines.skip(n)),
    decreases n,
{
    if n == 0 {
        assert(lines.skip(0) =~= lines);
    } else {
        lemma_wide_tail(lines.drop_first(), n - 1);
        assert(lines.drop_first().skip(n - 1) =~= lines.skip(n));
    }
}

proof fn lemma_run_ends(a: Seq<Seq<char>>, b: Seq<Seq<char>>)
    requires
        a.len() > 0,
        b.len() > 0 ==> a.last() != b[0],
    ensures
        run_length(a + b) == run_length(a),
    decreases a.len(),
{
    let all = a + b;
    if a.len() >= 2 {
        assert(all[1] == a[1]);
        if a[1] == a[0] {
            assert(all.drop_first() =~= a.drop_first() + b);
            assert(a.drop_first().last() == a.last());
            lemma_run_ends(a.drop_first(), b);
        }
    } else if b.len() > 0 {
        assert(all[1] == b[0]);
    }
}

/// Lines are collapsed piece by piece where no run goes over from one piece into the next.
pub proof fn pieces_collapse_apart(a: Seq<Seq<char>>, b: Seq<Seq<char>>)
    requires
        a.len() > 0 && b.len() > 0 ==> a.last() != b[0],
    ensures
        collapse_runs(a + b) == collapse_runs(a) + collapse_runs(b),
    decreases a.len(),
{
    if a.len() == 0 {
        assert(a + b =~= b);
        assert(collapse_runs(a) + collapse_runs(b) =~= collapse_runs(b));
    } else {
        let n = run_length(a) as int;
        lemma_run_length(a);
        lemma_run_ends(a, b);
        assert((a + b)[0] == a[0]);
        if n > DEDUPE_RUN_THRESHOLD {
            let rest = a.skip(n);
            assert((a + b).skip(n) =~= rest + b);
            if rest.len() > 0 {
                assert(rest.last() == a.last());
            }
            pieces_collapse_apart(rest, b);
            let head = seq![a[0], collapse_note((n - 1) as nat)];
            assert(head + (collapse_runs(rest) + collapse_runs(b)) =~= head + collapse_runs(rest)
                + collapse_runs(b));
        } else {
            let rest = a.drop_first();
            assert((a + b).drop_first() =~= rest + b);
            if rest.len() > 0 {
                assert(rest.last() == a.last());
            }
            pieces_collapse_apart(rest, b);
            assert(seq![a[0]] + (collapse_runs(rest) + collapse_runs(b)) =~= seq![a[0]]
                + collapse_runs(rest) + collapse_runs(b));
        }
    }
}

proof fn lemma_repeated_run(line: Seq<char>, n: nat)
    ensures
        run_length(Seq::new(n, |i: int| line)) == n,
    decreases n,
{
    let all = Seq::new(n, |i: int| line);
    if n >= 2 {
        lemma_repeated_run(line, (n - 1) as nat);
        assert(all.drop_first() =~= Seq::new((n - 1) as nat, |i: int| line));
    }
}

/// Of a line that stands there six times or more one stays, with a note of how many others there were.
/// Up to five stay as they are.
pub proof fn a_run_becomes_a_note(line: Seq<char>, n: nat)
    ensures
        n >= 6 ==> collapse_runs(Seq::new(n, |i: int| line)) == seq![
            line,
            "[... squishi pruned: "@ + dec((n - 1) as nat) + " identical lines collapsed ...]"@,
        ],
        n <= 5 ==> collapse_runs(Seq::new(n, |i: int| line)) == Seq::new(n, |i: int| line),
    decreases n,
{
    let all = Seq::new(n, |i: int| line);
    lemma_repeated_run(line, n);
    if n >= 6 {
        assert(all.skip(n as int) =~= Seq::<Seq<char>>::empty());
        let rest = all.skip(n as int);
        assert(collapse_runs(rest) =~= seq![]);
        let head = seq![line, collapse_note((n - 1) as nat)];
        assert(all[0] == line);
        assert(collapse_runs(all) == head + collapse_runs(rest));
        assert(head + collapse_runs(rest) =~= head);
    } else if n > 0 {
        a_run_becomes_a_note(line, (n - 1) as nat);
        let rest = Seq::new((n - 1) as nat, |i: int| line);
        assert(all.drop_first() =~= rest);
        assert(seq![line] + rest =~= all);
    } else {
        assert(collapse_runs(all) =~= all);
    }
}

/// A further line comes last in the text, with a newline behind it.
pub proof fn every_line_is_ended(lines: Seq<Seq<char>>, line: Seq<char>)
    ensures
        terminated(lines.push(line)) == terminated(lines) + line + seq!['\n'],
    decreases lines.len(),
{
    let all = lines.push(line);
    if lines.len() == 0 {
        assert(all.drop_first() =~= lines);
        assert(terminated(all) =~= terminated(lines) + line + seq!['\n']);
    } else {
        every_line_is_ended(lines.drop_first(), line);
        assert(all.drop_first() =~= lines.drop_first().push(line));
        assert(terminated(all) =~= terminated(lines) + line + seq!['\n']);
    }
}

} // verus!
