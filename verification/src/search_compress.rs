//! Search results grouped by file, with only the first few of each.
use crate::patterns::{regex_group, Pattern};
use crate::text::{
    copy_str, dec, decimal_usize, holds, holds_text, join, join_texts, lemma_views_push, lines,
    option_view, same_text, split_lines, views,
};
use vstd::multiset::Multiset;
use vstd::prelude::*;
use vstd::seq_lib::lemma_multiset_commutative;

verus! {

broadcast use lemma_views_push;

/// Of each file at most this many results stay.
pub const MAX_MATCHES_PER_FILE: usize = 5;

/// The file that a result line names, or nothing for a line that is no result.
pub open spec fn result_file(line: Seq<char>) -> Option<Seq<char>> {
    Pattern::SearchResult.group_in(line)
}

/// The files in the sequence in which they first come.
pub open spec fn files_in(lines: Seq<Seq<char>>) -> Seq<Seq<char>>
    decreases lines.len(),
{
    if lines.len() == 0 {
        seq![]
    } else {
        let before = files_in(lines.drop_last());
        match result_file(lines.last()) {
            Some(f) => if holds(before, f) {
                before
            } else {
                before.push(f)
            },
            None => before,
        }
    }
}

/// The lines whose file is `file`.
pub open spec fn lines_of(lines: Seq<Seq<char>>, file: Option<Seq<char>>) -> Seq<Seq<char>>
    decreases lines.len(),
{
    if lines.len() == 0 {
        seq![]
    } else {
        let before = lines_of(lines.drop_last(), file);
        if result_file(lines.last()) == file {
            before.push(lines.last())
        } else {
            before
        }
    }
}

pub open spec fn omission_note(file: Seq<char>, count: nat) -> Seq<char> {
    file + ": "@ + dec(count) + " more matches omitted"@
}

/// What is written for a file.
pub open spec fn file_section(lines: Seq<Seq<char>>, file: Seq<char>) -> Seq<Seq<char>> {
    let found = lines_of(lines, Some(file));
    if found.len() > MAX_MATCHES_PER_FILE {
        found.take(MAX_MATCHES_PER_FILE as int).push(
            omission_note(file, (found.len() - MAX_MATCHES_PER_FILE) as nat),
        )
    } else {
        found
    }
}

pub open spec fn sections(lines: Seq<Seq<char>>, files: Seq<Seq<char>>) -> Seq<Seq<char>>
    decreases files.len(),
{
    if files.len() == 0 {
        seq![]
    } else {
        sections(lines, files.drop_last()) + file_section(lines, files.last())
    }
}

/// The results by file, then the lines that are no results.
pub open spec fn search_output(lines: Seq<Seq<char>>) -> Seq<Seq<char>> {
    sections(lines, files_in(lines)) + lines_of(lines, None)
}

pub struct SearchCompressResult {
    pub original_lines: usize,
    pub compressed_lines: usize,
    pub content: String,
}

spec fn files_known(files: Seq<Option<String>>, lines: Seq<String>) -> bool {
    files.len() == lines.len() && forall|i: int|
        0 <= i < files.len() ==> option_view(#[trigger] files[i]) == result_file(lines[i]@)
}

fn collect_files(ls: &Vec<String>, files: &Vec<Option<String>>) -> (out: Vec<String>)
    requires
        files_known(files@, ls@),
    ensures
        views(out@) == files_in(views(ls@)),
{
    let ghost all = views(ls@);
    let mut out: Vec<String> = Vec::new();
    let mut i: usize = 0;
    assert(all.take(0) =~= seq![]);
    assert(views(out@) =~= files_in(all.take(0)));
    while i < ls.len()
        invariant
            i <= ls@.len(),
            all == views(ls@),
            files_known(files@, ls@),
            views(out@) == files_in(all.take(i as int)),
        decreases ls.len() - i,
    {
        assert(all.take(i + 1).drop_last() =~= all.take(i as int));
        assert(all.take(i + 1).last() == ls@[i as int]@);
        assert(option_view(files@[i as int]) == result_file(ls@[i as int]@));
        match &files[i] {
            Some(f) => {
                if !holds_text(&out, f.as_str()) {
                    out.push(f.clone());
                }
            },
            None => {},
        }
        i = i + 1;
    }
    assert(all.take(all.len() as int) =~= all);
    out
}

fn collect_lines(ls: &Vec<String>, files: &Vec<Option<String>>, file: Option<&str>) -> (out: Vec<String>)
    requires
        files_known(files@, ls@),
    ensures
        views(out@) == lines_of(
            views(ls@),
            match file {
                Some(f) => Some(f@),
                None => None,
            },
        ),
{
    let ghost all = views(ls@);
    let ghost wanted = match file {
        Some(f) => Some(f@),
        None => None,
    };
    let mut out: Vec<String> = Vec::new();
    let mut i: usize = 0;
    assert(all.take(0) =~= seq![]);
    assert(views(out@) =~= lines_of(all.take(0), wanted));
    while i < ls.len()
        invariant
            i <= ls@.len(),
            all == views(ls@),
            files_known(files@, ls@),
            wanted == (match file {
                Some(f) => Some(f@),
                None => None,
            }),
            views(out@) == lines_of(all.take(i as int), wanted),
        decreases ls.len() - i,
    {
        assert(all.take(i + 1).drop_last() =~= all.take(i as int));
        assert(all.take(i + 1).last() == ls@[i as int]@);
        assert(option_view(files@[i as int]) == result_file(ls@[i as int]@));
        let matched = match (&files[i], file) {
            (Some(a), Some(b)) => same_text(a.as_str(), b),
            (None, None) => true,
            _ => false,
        };
        if matched {
            out.push(ls[i].clone());
        }
        i = i + 1;
    }
    assert(all.take(all.len() as int) =~= all);
    out
}

fn push_section(out: &mut Vec<String>, found: Vec<String>, file: &str)
    ensures
        views(final(out)@) == views(old(out)@) + (if found@.len() > MAX_MATCHES_PER_FILE {
            views(found@).take(MAX_MATCHES_PER_FILE as int).push(
                omission_note(file@, (found@.len() - MAX_MATCHES_PER_FILE) as nat),
            )
        } else {
            views(found@)
        }),
{
    let mut found = found;
    let ghost before = out@;
    let ghost fs = found@;
    let count: usize = found.len();
    if count > MAX_MATCHES_PER_FILE {
        found.truncate(MAX_MATCHES_PER_FILE);
        let ghost kept = found@;
        out.append(&mut found);
        let mut note = copy_str(file);
        note.append(": ");
        let omitted = decimal_usize(count - MAX_MATCHES_PER_FILE);
        note.append(omitted.as_str());
        note.append(" more matches omitted");
        assert(views(out@) =~= views(before) + views(fs).take(MAX_MATCHES_PER_FILE as int));
        let ghost mid = views(out@);
        out.push(note);
        assert(views(out@) =~= views(before) + views(fs).take(MAX_MATCHES_PER_FILE as int).push(
            omission_note(file@, (count - MAX_MATCHES_PER_FILE) as nat),
        ));
    } else {
        out.append(&mut found);
        assert(views(out@) =~= views(before) + views(fs));
    }
}

/// Search results grouped by file, at most five of each, and the other lines after them.
pub fn compress_search_results(content: &str) -> (r: SearchCompressResult)
    ensures
        r.content@ == join(search_output(split_lines(content@)), "\n"@),
        r.original_lines == split_lines(content@).len(),
        r.compressed_lines == search_output(split_lines(content@)).len(),
{
    let ls = lines(content);
    let ghost all = views(ls@);
    let files = Pattern::SearchResult.group_each(&ls);
    let order = collect_files(&ls, &files);
    let ghost os = views(order@);
    let mut out: Vec<String> = Vec::new();
    let mut i: usize = 0;
    assert(os.take(0) =~= seq![]);
    assert(views(out@) =~= sections(all, os.take(0)));
    while i < order.len()
        invariant
            i <= order@.len(),
            all == views(ls@),
            os == views(order@),
            files_known(files@, ls@),
            views(out@) == sections(all, os.take(i as int)),
        decreases order.len() - i,
    {
        assert(os.take(i + 1).drop_last() =~= os.take(i as int));
        assert(os.take(i + 1).last() == order@[i as int]@);
        let found = collect_lines(&ls, &files, Some(order[i].as_str()));
        assert(views(found@).len() == found@.len());
        push_section(&mut out, found, order[i].as_str());
        i = i + 1;
    }
    assert(os.take(os.len() as int) =~= os);
    let mut unmatched = collect_lines(&ls, &files, None);
    let ghost before = out@;
    let ghost us = unmatched@;
    out.append(&mut unmatched);
    assert(views(out@) =~= views(before) + views(us));
    SearchCompressResult {
        original_lines: ls.len(),
        compressed_lines: out.len(),
        content: join_texts(&out, "\n"),
    }
}

// ---------------------------------------------------------------------------
// Laws
// ---------------------------------------------------------------------------

/// A file takes at most one line more than the limit.
pub proof fn sections_are_capped(lines: Seq<Seq<char>>, file: Seq<char>)
    ensures
        file_section(lines, file).len() <= MAX_MATCHES_PER_FILE + 1,
        lines_of(lines, Some(file)).len() <= MAX_MATCHES_PER_FILE ==> file_section(lines, file)
            == lines_of(lines, Some(file)),
{
}

/// Lines that are no results all stay, in their sequence, at the end.
pub proof fn other_lines_stay(lines: Seq<Seq<char>>)
    ensures
        ({
            let others = lines_of(lines, None);
            let out = search_output(lines);
            out.skip(out.len() - others.len()) == others
        }),
{
    let others = lines_of(lines, None);
    let out = search_output(lines);
    assert(out.skip(out.len() - others.len()) =~= others);
}

/// The line is a search result in `file`: it starts with that name, a colon, a number and a colon.
pub open spec fn names_file(line: Seq<char>, file: Seq<char>) -> bool {
    regex_group(r"^([^:]+):(\d+):"@, line) == Some(file)
}

/// The line is no search result.
pub open spec fn names_none(line: Seq<char>) -> bool {
    regex_group(r"^([^:]+):(\d+):"@, line) is None
}

/// How many of the first `n` lines are results in `file`.
pub open spec fn results_among(lines: Seq<Seq<char>>, file: Seq<char>, n: nat) -> nat
    decreases n,
{
    if n == 0 {
        0
    } else {
        results_among(lines, file, (n - 1) as nat) + if names_file(lines[n - 1], file) {
            1nat
        } else {
            0nat
        }
    }
}

/// The note that takes the place of so many results in a file.
pub open spec fn note_of(file: Seq<char>, count: int) -> Seq<char> {
    file + ": "@ + dec(count as nat) + " more matches omitted"@
}

proof fn lemma_results_among(lines: Seq<Seq<char>>, file: Seq<char>, n: nat)
    requires
        n <= lines.len(),
    ensures
        lines_of(lines.take(n as int), Some(file)).len() == results_among(lines, file, n),
    decreases n,
{
    if n > 0 {
        lemma_results_among(lines, file, (n - 1) as nat);
        assert(lines.take(n as int).drop_last() =~= lines.take(n - 1));
    }
}

proof fn lemma_same_results(a: Seq<Seq<char>>, b: Seq<Seq<char>>, file: Seq<char>, n: nat)
    requires
        n <= a.len(),
        n <= b.len(),
        forall|i: int| 0 <= i < n ==> #[trigger] a[i] == b[i],
    ensures
        results_among(a, file, n) == results_among(b, file, n),
    decreases n,
{
    if n > 0 {
        lemma_same_results(a, b, file, (n - 1) as nat);
        assert(a[n - 1] == b[n - 1]);
    }
}

proof fn lemma_files(lines: Seq<Seq<char>>)
    ensures
        forall|i: int, j: int|
            0 <= i < j < files_in(lines).len() ==> #[trigger] files_in(lines)[i] != #[trigger] files_in(
                lines,
            )[j],
        forall|f: Seq<char>| #[trigger]
            holds(files_in(lines), f) <==> lines_of(lines, Some(f)).len() > 0,
    decreases lines.len(),
{
    if lines.len() > 0 {
        let before = files_in(lines.drop_last());
        let out = files_in(lines);
        lemma_files(lines.drop_last());
        assert forall|i: int, j: int| 0 <= i < j < out.len() implies #[trigger] out[i]
            != #[trigger] out[j] by {
            assert(out[i] == before[i]);
            if j < before.len() {
                assert(out[j] == before[j]);
            }
        }
        assert forall|f: Seq<char>| #[trigger] holds(out, f) <==> lines_of(lines, Some(f)).len() > 0 by {
            if holds(before, f) {
                let k = choose|k: int| 0 <= k < before.len() && #[trigger] before[k] == f;
                assert(out[k] == f);
            }
            if holds(out, f) {
                let k = choose|k: int| 0 <= k < out.len() && #[trigger] out[k] == f;
                if k < before.len() {
                    assert(before[k] == f);
                }
            }
            if result_file(lines.last()) == Some(f) && !holds(before, f) {
                assert(out[out.len() - 1] == f);
            }
        }
    }
}

/// A further result changes the section of its file and no other.
proof fn lemma_other_section(lines: Seq<Seq<char>>, x: Seq<char>, file: Seq<char>)
    ensures
        lines_of(lines.push(x), Some(file)) == (if names_file(x, file) {
            lines_of(lines, Some(file)).push(x)
        } else {
            lines_of(lines, Some(file))
        }),
        lines_of(lines.push(x), None) == (if names_none(x) {
            lines_of(lines, None).push(x)
        } else {
            lines_of(lines, None)
        }),
{
    assert(lines.push(x).drop_last() =~= lines);
}

proof fn lemma_add_to_both<T>(
    a: Multiset<T>,
    b: Multiset<T>,
    o: Multiset<T>,
    n: Multiset<T>,
    c: Multiset<T>,
)
    requires
        b.add(o) == a.add(n),
    ensures
        b.add(c).add(o) == a.add(c).add(n),
{
    broadcast use vstd::multiset::group_multiset_axioms;

    assert forall|v: T| #[trigger] b.add(c).add(o).count(v) == a.add(c).add(n).count(v) by {
        assert(b.add(o).count(v) == b.count(v) + o.count(v));
        assert(a.add(n).count(v) == a.count(v) + n.count(v));
    }
    assert(b.add(c).add(o) =~= a.add(c).add(n));
}

/// What is the same in both parts can be left out.
proof fn lemma_take_from_both<T>(
    a: Multiset<T>,
    b: Multiset<T>,
    o: Multiset<T>,
    n: Multiset<T>,
    common: Multiset<T>,
    p: Multiset<T>,
    q: Multiset<T>,
)
    requires
        b.add(o) == a.add(n),
        o == common.add(p),
        n == common.add(q),
    ensures
        b.add(p) == a.add(q),
{
    broadcast use vstd::multiset::group_multiset_axioms;

    assert forall|v: T| #[trigger] b.add(p).count(v) == a.add(q).count(v) by {
        assert(b.add(o).count(v) == b.count(v) + o.count(v));
        assert(a.add(n).count(v) == a.count(v) + n.count(v));
        assert(common.add(p).count(v) == common.count(v) + p.count(v));
        assert(common.add(q).count(v) == common.count(v) + q.count(v));
    }
    assert(b.add(p) =~= a.add(q));
}

proof fn lemma_sections_push(
    lines: Seq<Seq<char>>,
    x: Seq<char>,
    file: Seq<char>,
    files: Seq<Seq<char>>,
)
    requires
        names_file(x, file),
        forall|i: int, j: int| 0 <= i < j < files.len() ==> #[trigger] files[i] != #[trigger] files[j],
    ensures
        holds(files, file) ==> sections(lines.push(x), files).to_multiset().add(
            file_section(lines, file).to_multiset(),
        ) == sections(lines, files).to_multiset().add(
            file_section(lines.push(x), file).to_multiset(),
        ),
        !holds(files, file) ==> sections(lines.push(x), files) == sections(lines, files),
    decreases files.len(),
{
    if files.len() > 0 {
        let fs = files.drop_last();
        let last = files.last();
        assert forall|i: int, j: int| 0 <= i < j < fs.len() implies #[trigger] fs[i] != #[trigger] fs[j] by {
            assert(fs[i] == files[i] && fs[j] == files[j]);
        }
        lemma_sections_push(lines, x, file, fs);
        let a = sections(lines, fs);
        let b = sections(lines.push(x), fs);
        let sa = file_section(lines, last);
        let sb = file_section(lines.push(x), last);
        lemma_multiset_commutative(a, sa);
        lemma_multiset_commutative(b, sb);
        lemma_other_section(lines, x, last);
        if last == file {
            assert(files[files.len() - 1] == file);
            assert(!holds(fs, file)) by {
                if holds(fs, file) {
                    let k = choose|k: int| 0 <= k < fs.len() && #[trigger] fs[k] == file;
                    assert(files[k] == files[files.len() - 1]);
                }
            }
            assert((b + sb).to_multiset().add(sa.to_multiset()) =~= (a + sa).to_multiset().add(
                sb.to_multiset(),
            ));
        } else {
            assert(sa == sb);
            assert(holds(files, file) <==> holds(fs, file)) by {
                if holds(files, file) {
                    let k = choose|k: int| 0 <= k < files.len() && #[trigger] files[k] == file;
                    assert(fs[k] == file);
                }
                if holds(fs, file) {
                    let k = choose|k: int| 0 <= k < fs.len() && #[trigger] fs[k] == file;
                    assert(files[k] == file);
                }
            }
            if holds(files, file) {
                let o = file_section(lines, file).to_multiset();
                let n = file_section(lines.push(x), file).to_multiset();
                lemma_add_to_both(a.to_multiset(), b.to_multiset(), o, n, sa.to_multiset());
            }
        }
    }
}

/// What a further line adds to the output. A line that is no result goes to the end. One of the first
/// five results in a file is added; for the sixth a note is added, and for each after it the note counts
/// one more. Nothing else comes or goes.
pub proof fn further_lines_add_to_the_output(lines: Seq<Seq<char>>, x: Seq<char>, file: Seq<char>)
    ensures
        names_none(x) ==> search_output(lines.push(x)) == search_output(lines).push(x),
        names_file(x, file) ==> ({
            let n = results_among(lines, file, lines.len());
            let old_out = search_output(lines).to_multiset();
            let new_out = search_output(lines.push(x)).to_multiset();
            &&& n < 5 ==> new_out == old_out.insert(x)
            &&& n == 5 ==> new_out == old_out.insert(note_of(file, 1))
            &&& n > 5 ==> new_out.insert(note_of(file, n - 5)) == old_out.insert(
                note_of(file, n - 4),
            )
        }),
{
    let more = lines.push(x);
    assert(more.drop_last() =~= lines);
    lemma_other_section(lines, x, file);
    if names_none(x) {
        lemma_sections_same(lines, x, files_in(lines));
        assert(search_output(more) =~= search_output(lines).push(x));
    }
    if names_file(x, file) {
        let found = lines_of(lines, Some(file));
        let files = files_in(lines);
        let others = lines_of(lines, None);
        lemma_results_among(lines, file, lines.len());
        assert(lines.take(lines.len() as int) =~= lines);
        lemma_files(lines);
        lemma_sections_push(lines, x, file, files);
        lemma_multiset_commutative(sections(lines, files), others);
        lemma_multiset_commutative(sections(more, files_in(more)), others);
        let old_section = file_section(lines, file);
        let new_section = file_section(more, file);
        let five = found.take(5);
        broadcast use {
            vstd::multiset::group_multiset_axioms,
            vstd::seq_lib::group_to_multiset_ensures,
        };

        if found.len() == 0 {
            assert(files_in(more) =~= files.push(file));
            assert(files.push(file).drop_last() =~= files);
            lemma_multiset_commutative(sections(more, files), new_section);
            assert(new_section =~= seq![x]);
            assert(seq![x] =~= Seq::<Seq<char>>::empty().push(x));
            assert(search_output(more).to_multiset() =~= search_output(lines).to_multiset().insert(x));
        } else {
            assert(files_in(more) == files);
            let a = sections(lines, files).to_multiset();
            let b = sections(more, files).to_multiset();
            let o = old_section.to_multiset();
            let n = new_section.to_multiset();
            let e = Multiset::<Seq<char>>::empty();
            let rest = others.to_multiset();
            assert(search_output(lines).to_multiset() == a.add(rest));
            assert(search_output(more).to_multiset() == b.add(rest));
            if found.len() < 5 {
                assert(new_section == old_section.push(x));
                assert(o =~= o.add(e));
                assert(n =~= o.add(e.insert(x)));
                lemma_take_from_both(a, b, o, n, o, e, e.insert(x));
                assert(b =~= b.add(e));
                assert(a.insert(x) =~= a.add(e.insert(x)));
                assert(b =~= a.insert(x));
                assert(search_output(more).to_multiset() =~= search_output(lines).to_multiset().insert(
                    x,
                ));
            } else if found.len() == 5 {
                assert(found.push(x).take(5) =~= found);
                assert(new_section == old_section.push(note_of(file, 1)));
                let one = note_of(file, 1);
                assert(o =~= o.add(e));
                assert(n =~= o.add(e.insert(one)));
                lemma_take_from_both(a, b, o, n, o, e, e.insert(one));
                assert(b =~= b.add(e));
                assert(a.insert(one) =~= a.add(e.insert(one)));
                assert(b =~= a.insert(note_of(file, 1)));
                assert(search_output(more).to_multiset() =~= search_output(lines).to_multiset().insert(
                    note_of(file, 1),
                ));
            } else {
                let p = note_of(file, found.len() - 5);
                let q = note_of(file, found.len() - 4);
                assert(found.push(x).take(5) =~= five);
                assert(old_section == five.push(p));
                assert(new_section == five.push(q));
                let kept = five.to_multiset();
                assert(o =~= kept.add(e.insert(p)));
                assert(n =~= kept.add(e.insert(q)));
                lemma_take_from_both(a, b, o, n, kept, e.insert(p), e.insert(q));
                lemma_add_to_both(a, b, e.insert(p), e.insert(q), rest);
                assert(search_output(more).to_multiset().insert(p) =~= b.add(rest).add(e.insert(p)));
                assert(search_output(lines).to_multiset().insert(q) =~= a.add(rest).add(e.insert(q)));
            }
        }
    }
}

proof fn lemma_sections_same(lines: Seq<Seq<char>>, x: Seq<char>, files: Seq<Seq<char>>)
    requires
        names_none(x),
    ensures
        sections(lines.push(x), files) == sections(lines, files),
    decreases files.len(),
{
    if files.len() > 0 {
        lemma_sections_same(lines, x, files.drop_last());
        lemma_other_section(lines, x, files.last());
    }
}

/// Where no file has more than five results, no line is lost, none is added and none is changed.
pub proof fn few_results_all_stay(lines: Seq<Seq<char>>)
    requires
        forall|f: Seq<char>| #[trigger] results_among(lines, f, lines.len()) <= 5,
    ensures
        search_output(lines).to_multiset() == lines.to_multiset(),
        search_output(lines).len() == lines.len(),
    decreases lines.len(),
{
    broadcast use {
            vstd::multiset::group_multiset_axioms,
            vstd::seq_lib::group_to_multiset_ensures,
        };

    if lines.len() == 0 {
        assert(search_output(lines) =~= lines);
    } else {
        let before = lines.drop_last();
        let x = lines.last();
        assert(before.push(x) =~= lines);
        assert forall|f: Seq<char>| #[trigger] results_among(before, f, before.len()) <= 5 by {
            lemma_same_results(before, lines, f, before.len());
            assert(results_among(lines, f, lines.len()) <= 5);
        }
        few_results_all_stay(before);
        match regex_group(r"^([^:]+):(\d+):"@, x) {
            Some(f) => {
                further_lines_add_to_the_output(before, x, f);
                lemma_same_results(before, lines, f, before.len());
                assert(results_among(lines, f, lines.len()) <= 5);
            },
            None => {
                further_lines_add_to_the_output(before, x, seq![]);
            },
        }
        assert(search_output(lines).to_multiset() =~= lines.to_multiset());
        assert(search_output(lines).to_multiset().len() == lines.to_multiset().len());
    }
}

/// A result that is among the first five in its file stays; for the others a note tells how many more
/// there are.
pub proof fn every_result_is_accounted_for(lines: Seq<Seq<char>>, i: int, file: Seq<char>)
    requires
        0 <= i < lines.len(),
        names_file(lines[i], file),
    ensures
        results_among(lines, file, i as nat) < 5 ==> search_output(lines).contains(lines[i]),
        results_among(lines, file, i as nat) >= 5 ==> search_output(lines).contains(
            note_of(file, results_among(lines, file, lines.len()) - 5),
        ),
{
    let found = lines_of(lines, Some(file));
    let files = files_in(lines);
    let r = results_among(lines, file, i as nat) as int;
    lemma_files(lines);
    lemma_result_at(lines, file, i, lines.len());
    assert(lines.take(lines.len() as int) =~= lines);
    lemma_results_among(lines, file, lines.len());
    assert(holds(files, file));
    let k = choose|k: int| 0 <= k < files.len() && #[trigger] files[k] == file;
    let section = file_section(lines, file);
    if r < 5 {
        assert(section[r] == lines[i]);
        lemma_section_is_in(lines, files, k, r);
    } else {
        assert(section[5] == note_of(file, found.len() - 5));
        lemma_section_is_in(lines, files, k, 5);
    }
    let part = sections(lines, files);
    let x = section[if r < 5 {
        r
    } else {
        5
    }];
    let j = choose|j: int| 0 <= j < part.len() && part[j] == x;
    assert(search_output(lines)[j] == x);
}

proof fn lemma_result_at(lines: Seq<Seq<char>>, file: Seq<char>, i: int, n: nat)
    requires
        0 <= i < n <= lines.len(),
        names_file(lines[i], file),
    ensures
        results_among(lines, file, i as nat) < lines_of(lines.take(n as int), Some(file)).len(),
        lines_of(lines.take(n as int), Some(file))[results_among(lines, file, i as nat) as int]
            == lines[i],
    decreases n,
{
    let part = lines.take(n as int);
    assert(part.drop_last() =~= lines.take(n - 1));
    assert(part.last() == lines[n - 1]);
    lemma_results_among(lines, file, (n - 1) as nat);
    if i < n - 1 {
        lemma_result_at(lines, file, i, (n - 1) as nat);
    }
}

proof fn lemma_section_is_in(lines: Seq<Seq<char>>, files: Seq<Seq<char>>, k: int, i: int)
    requires
        0 <= k < files.len(),
        0 <= i < file_section(lines, files[k]).len(),
    ensures
        sections(lines, files).contains(file_section(lines, files[k])[i]),
    decreases files.len(),
{
    let before = sections(lines, files.drop_last());
    let out = sections(lines, files);
    if k == files.len() - 1 {
        assert(out[before.len() + i] == file_section(lines, files[k])[i]);
    } else {
        lemma_section_is_in(lines, files.drop_last(), k, i);
        let x = file_section(lines, files[k])[i];
        let j = choose|j: int| 0 <= j < before.len() && before[j] == x;
        assert(out[j] == x);
    }
}

proof fn lemma_files_prefix(lines: Seq<Seq<char>>, n: nat)
    requires
        n <= lines.len(),
    ensures
        files_in(lines.take(n as int)).len() <= files_in(lines).len(),
        files_in(lines).take(files_in(lines.take(n as int)).len() as int) == files_in(
            lines.take(n as int),
        ),
    decreases lines.len(),
{
    let part = lines.take(n as int);
    if n == lines.len() {
        assert(part =~= lines);
        assert(files_in(lines).take(files_in(lines).len() as int) =~= files_in(lines));
    } else {
        let before = lines.drop_last();
        assert(before.take(n as int) =~= part);
        lemma_files_prefix(before, n);
        let k = files_in(part).len() as int;
        assert(files_in(lines).take(k) =~= files_in(before).take(k));
    }
}

/// Where the lines of a section stand.
proof fn lemma_place(lines: Seq<Seq<char>>, files: Seq<Seq<char>>, k: int, r: int)
    requires
        0 <= k < files.len(),
        0 <= r < file_section(lines, files[k]).len(),
    ensures
        sections(lines, files.take(k)).len() + r < sections(lines, files.take(k + 1)).len(),
        sections(lines, files.take(k + 1)).len() <= sections(lines, files).len(),
        sections(lines, files)[sections(lines, files.take(k)).len() + r] == file_section(
            lines,
            files[k],
        )[r],
    decreases files.len(),
{
    let before = files.drop_last();
    if k == files.len() - 1 {
        assert(files.take(k) =~= before);
        assert(files.take(k + 1) =~= files);
    } else {
        assert(before.take(k) =~= files.take(k));
        assert(before.take(k + 1) =~= files.take(k + 1));
        lemma_place(lines, before, k, r);
    }
}

proof fn lemma_offsets(lines: Seq<Seq<char>>, files: Seq<Seq<char>>, a: int, b: int)
    requires
        0 <= a <= b <= files.len(),
    ensures
        sections(lines, files.take(a)).len() <= sections(lines, files.take(b)).len(),
    decreases b - a,
{
    if a < b {
        lemma_offsets(lines, files, a, b - 1);
        assert(files.take(b).drop_last() =~= files.take(b - 1));
    }
}

/// `a` stands before `b` in the output.
pub open spec fn stands_before(out: Seq<Seq<char>>, a: Seq<char>, b: Seq<char>) -> bool {
    exists|i: int, j: int| 0 <= i < j < out.len() && #[trigger] out[i] == a && #[trigger] out[j] == b
}

/// The results that stay are grouped: those of one file in their sequence, and those of a file that has
/// a result earlier than another before those of the other.
pub proof fn results_are_grouped(
    lines: Seq<Seq<char>>,
    i: int,
    f: Seq<char>,
    j: int,
    g: Seq<char>,
    first: int,
)
    requires
        0 <= i < lines.len(),
        0 <= j < lines.len(),
        names_file(lines[i], f) && results_among(lines, f, i as nat) < 5,
        names_file(lines[j], g) && results_among(lines, g, j as nat) < 5,
        f == g ==> i < j,
        f != g ==> 0 <= first < lines.len() && names_file(lines[first], f) && forall|m: int|
            0 <= m < first ==> !names_file(#[trigger] lines[m], g),
    ensures
        stands_before(search_output(lines), lines[i], lines[j]),
{
    let files = files_in(lines);
    let a = results_among(lines, f, i as nat) as int;
    let b = results_among(lines, g, j as nat) as int;
    lemma_files(lines);
    assert(lines.take(lines.len() as int) =~= lines);
    lemma_result_at(lines, f, i, lines.len());
    lemma_result_at(lines, g, j, lines.len());
    lemma_results_among(lines, f, lines.len());
    lemma_results_among(lines, g, lines.len());
    assert(holds(files, f) && holds(files, g));
    let k = choose|k: int| 0 <= k < files.len() && #[trigger] files[k] == f;
    let l = choose|l: int| 0 <= l < files.len() && #[trigger] files[l] == g;
    lemma_place(lines, files, k, a);
    lemma_place(lines, files, l, b);
    let out = search_output(lines);
    let x = sections(lines, files.take(k)).len() + a;
    let y = sections(lines, files.take(l)).len() + b;
    assert(file_section(lines, f)[a] == lines[i]);
    assert(file_section(lines, g)[b] == lines[j]);
    assert(out[x] == lines[i] && out[y] == lines[j]);
    if f == g {
        assert(k == l);
        lemma_results_grow(lines, f, i, j);
    } else {
        let part = lines.take(first + 1);
        lemma_files_prefix(lines, (first + 1) as nat);
        lemma_files(part);
        lemma_result_at(lines, f, first, (first + 1) as nat);
        lemma_none_among(lines, g, first as nat);
        lemma_results_among(lines, g, (first + 1) as nat);
        let early = files_in(part);
        assert(holds(early, f) && !holds(early, g));
        let m = choose|m: int| 0 <= m < early.len() && #[trigger] early[m] == f;
        assert(files.take(early.len() as int)[m] == files[m]);
        assert(m == k);
        if l < early.len() {
            assert(files.take(early.len() as int)[l] == files[l]);
            assert(early[l] == g);
        }
        assert(k < l);
        lemma_offsets(lines, files, k + 1, l);
    }
}

proof fn lemma_results_grow(lines: Seq<Seq<char>>, f: Seq<char>, i: int, j: int)
    requires
        0 <= i < j,
        names_file(lines[i], f),
    ensures
        results_among(lines, f, i as nat) < results_among(lines, f, j as nat),
    decreases j,
{
    if i < j - 1 {
        lemma_results_grow(lines, f, i, j - 1);
    }
}

proof fn lemma_none_among(lines: Seq<Seq<char>>, g: Seq<char>, n: nat)
    requires
        forall|m: int| 0 <= m < n ==> !names_file(#[trigger] lines[m], g),
    ensures
        results_among(lines, g, n) == 0,
    decreases n,
{
    if n > 0 {
        lemma_none_among(lines, g, (n - 1) as nat);
    }
}

} // verus!
