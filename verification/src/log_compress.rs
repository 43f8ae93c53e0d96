//! Compression of logs: errors, warnings and summaries stay, with a little around them.
use crate::order::{
    arranged, ascending_below, distinct_below, ints, order_by, signed_keys, stable_order,
    stable_order_sorts,
};
use crate::patterns::{regex_is_match, Pattern};
use crate::text::{
    copy_str, dec, decimal_usize, is_empty_text, join, join_texts, lemma_views_push, lines,
    split_lines, trim, trim_start, trim_start_text, trim_text, views,
};
use vstd::prelude::*;

verus! {

broadcast use lemma_views_push;

#[derive(Debug, Clone, Copy, PartialEq, Eq, Structural)]
pub enum LineLevel {
    Error,
    Warn,
    Info,
    Unknown,
}

pub open spec fn level_of(line: Seq<char>) -> LineLevel {
    if Pattern::LogError.matches_in(line) {
        LineLevel::Error
    } else if Pattern::LogWarning.matches_in(line) {
        LineLevel::Warn
    } else if trim(line).len() > 0 {
        LineLevel::Info
    } else {
        LineLevel::Unknown
    }
}

pub open spec fn is_summary(line: Seq<char>) -> bool {
    Pattern::LogSummary.matches_in(trim_start(line))
}

/// How much a line matters.
pub open spec fn line_score(line: Seq<char>) -> int {
    (match level_of(line) {
        LineLevel::Error => 100int,
        LineLevel::Warn => 50int,
        LineLevel::Info => 10int,
        LineLevel::Unknown => 1int,
    }) + if is_summary(line) {
        40int
    } else {
        0int
    }
}

/// The indexes of the first `n` lines that are on the level.
pub open spec fn indexes_on(lines: Seq<Seq<char>>, level: LineLevel, n: nat) -> Seq<int>
    decreases n,
{
    if n == 0 {
        seq![]
    } else {
        let before = indexes_on(lines, level, (n - 1) as nat);
        if level_of(lines[n - 1]) == level {
            before.push(n - 1)
        } else {
            before
        }
    }
}

/// The indexes of the summaries among the first `n` lines.
pub open spec fn summary_indexes(lines: Seq<Seq<char>>, n: nat) -> Seq<int>
    decreases n,
{
    if n == 0 {
        seq![]
    } else {
        let before = summary_indexes(lines, (n - 1) as nat);
        if is_summary(lines[n - 1]) {
            before.push(n - 1)
        } else {
            before
        }
    }
}

pub open spec fn negated_scores(lines: Seq<Seq<char>>, indexes: Seq<int>) -> Seq<int> {
    Seq::new(indexes.len(), |i: int| -line_score(lines[indexes[i]]))
}

/// The first and the last of the indexes, and between them those that matter most, as many as the
/// limit leaves room for.
pub open spec fn first_last_and_top(lines: Seq<Seq<char>>, indexes: Seq<int>, max: int) -> Seq<int> {
    if indexes.len() <= max {
        indexes
    } else if indexes.len() == 1 {
        indexes
    } else {
        let middle = indexes.subrange(1, indexes.len() - 1);
        let order = stable_order(negated_scores(lines, middle));
        let room = if max > 2 {
            max - 2
        } else {
            0
        };
        seq![indexes[0], indexes.last()] + arranged(middle, order.take(room))
    }
}

pub struct LogCompressConfig {
    pub max_errors: usize,
    pub max_warnings: usize,
    pub context_lines: usize,
    pub max_total_lines: usize,
}

impl Default for LogCompressConfig {
    fn default() -> (c: LogCompressConfig)
        ensures
            c.max_errors == 10,
            c.max_warnings == 5,
            c.context_lines == 2,
            c.max_total_lines == 100,
    {
        LogCompressConfig { max_errors: 10, max_warnings: 5, context_lines: 2, max_total_lines: 100 }
    }
}

pub struct LogCompressResult {
    pub original_line_count: usize,
    pub compressed_line_count: usize,
    pub content: String,
}

/// The lines that a log is kept for.
pub open spec fn signal_indexes(lines: Seq<Seq<char>>, config: LogCompressConfig) -> Seq<int> {
    first_last_and_top(
        lines,
        indexes_on(lines, LineLevel::Error, lines.len()),
        config.max_errors as int,
    ) + first_last_and_top(
        lines,
        indexes_on(lines, LineLevel::Warn, lines.len()),
        config.max_warnings as int,
    ) + summary_indexes(lines, lines.len())
}

/// One of the signals stands at most `context` lines from line `i`.
pub open spec fn near_signal(signals: Seq<int>, i: int, context: int) -> bool {
    exists|k: int|
        0 <= k < signals.len() && #[trigger] signals[k] - context <= i <= signals[k] + context
}

/// The indexes below `n` of the lines near a signal.
pub open spec fn context_indexes(signals: Seq<int>, context: int, n: nat) -> Seq<int>
    decreases n,
{
    if n == 0 {
        seq![]
    } else {
        let before = context_indexes(signals, context, (n - 1) as nat);
        if near_signal(signals, n - 1, context) {
            before.push(n - 1)
        } else {
            before
        }
    }
}

/// Those of the first `n` places of `order` of which the place is among the first `max` in `order`.
pub open spec fn best_places(indexes: Seq<int>, order: Seq<int>, max: int, n: nat) -> Seq<int>
    decreases n,
{
    if n == 0 {
        seq![]
    } else {
        let before = best_places(indexes, order, max, (n - 1) as nat);
        if order.take(max).contains(n - 1) {
            before.push(indexes[n - 1])
        } else {
            before
        }
    }
}

/// The lines that stay: those near a signal, or the ones among them that matter most.
pub open spec fn kept_indexes(lines: Seq<Seq<char>>, config: LogCompressConfig) -> Seq<int> {
    let near = context_indexes(
        signal_indexes(lines, config),
        config.context_lines as int,
        lines.len(),
    );
    if near.len() > config.max_total_lines {
        best_places(
            near,
            stable_order(negated_scores(lines, near)),
            config.max_total_lines as int,
            near.len(),
        )
    } else {
        near
    }
}

pub open spec fn omission_note(omitted: nat, errors: nat, warnings: nat) -> Seq<char> {
    "["@ + dec(omitted) + " lines omitted: "@ + dec(errors) + " error, "@ + dec(warnings) + " warn]"@
}

pub open spec fn log_output(lines: Seq<Seq<char>>, config: LogCompressConfig) -> Seq<Seq<char>> {
    let kept = kept_indexes(lines, config);
    let omitted = (lines.len() - kept.len()) as nat;
    arranged(lines, kept) + if omitted > 0 {
        seq![
            omission_note(
                omitted,
                indexes_on(lines, LineLevel::Error, lines.len()).len(),
                indexes_on(lines, LineLevel::Warn, lines.len()).len(),
            ),
        ]
    } else {
        seq![]
    }
}

/// The levels of the lines and whether they are summaries.
struct Classified {
    levels: Vec<LineLevel>,
    summaries: Vec<bool>,
}

impl Classified {
    spec fn hold_of(&self, lines: Seq<Seq<char>>) -> bool {
        &&& self.levels@.len() == lines.len()
        &&& self.summaries@.len() == lines.len()
        &&& forall|i: int| 0 <= i < lines.len() ==> #[trigger] self.levels@[i] == level_of(lines[i])
        &&& forall|i: int| 0 <= i < lines.len() ==> #[trigger] self.summaries@[i] == is_summary(lines[i])
    }

    fn score(&self, i: usize, Ghost(lines): Ghost<Seq<Seq<char>>>) -> (s: u128)
        requires
            self.hold_of(lines),
            i < lines.len(),
        ensures
            s == line_score(lines[i as int]),
    {
        let base: u128 = match self.levels[i] {
            LineLevel::Error => 100,
            LineLevel::Warn => 50,
            LineLevel::Info => 10,
            LineLevel::Unknown => 1,
        };
        if self.summaries[i] {
            base + 40
        } else {
            base
        }
    }
}

fn trimmed_starts(ls: &Vec<String>) -> (out: Vec<String>)
    ensures
        out@.len() == ls@.len(),
        forall|i: int| 0 <= i < out@.len() ==> (#[trigger] out@[i])@ == trim_start(ls@[i]@),
{
    let mut out: Vec<String> = Vec::new();
    let mut i: usize = 0;
    while i < ls.len()
        invariant
            i <= ls@.len(),
            out@.len() == i,
            forall|j: int| 0 <= j < i ==> (#[trigger] out@[j])@ == trim_start(ls@[j]@),
        decreases ls.len() - i,
    {
        out.push(trim_start_text(ls[i].as_str()));
        i = i + 1;
    }
    out
}

fn classify(ls: &Vec<String>) -> (c: Classified)
    ensures
        c.hold_of(views(ls@)),
{
    let errors = Pattern::LogError.match_each(ls);
    let warnings = Pattern::LogWarning.match_each(ls);
    let starts = trimmed_starts(ls);
    let summaries = Pattern::LogSummary.match_each(&starts);
    let mut levels: Vec<LineLevel> = Vec::new();
    let mut i: usize = 0;
    while i < ls.len()
        invariant
            i <= ls@.len(),
            errors@.len() == ls@.len(),
            warnings@.len() == ls@.len(),
            forall|j: int| 0 <= j < ls@.len() ==> #[trigger] errors@[j] == Pattern::LogError.matches_in(ls@[j]@),
            forall|j: int|
                0 <= j < ls@.len() ==> #[trigger] warnings@[j] == Pattern::LogWarning.matches_in(ls@[j]@),
            levels@.len() == i,
            forall|j: int| 0 <= j < i ==> #[trigger] levels@[j] == level_of(ls@[j]@),
        decreases ls.len() - i,
    {
        let level = if errors[i] {
            LineLevel::Error
        } else if warnings[i] {
            LineLevel::Warn
        } else {
            let t = trim_text(ls[i].as_str());
            if !is_empty_text(t.as_str()) {
                LineLevel::Info
            } else {
                LineLevel::Unknown
            }
        };
        levels.push(level);
        i = i + 1;
    }
    let c = Classified { levels, summaries };
    proof {
        let all = views(ls@);
        assert forall|i: int| 0 <= i < all.len() implies #[trigger] c.summaries@[i] == is_summary(all[i]) by {
            assert(starts@[i]@ == trim_start(ls@[i]@));
        }
    }
    c
}

proof fn lemma_ascending_push(v: Seq<int>, n: int)
    requires
        ascending_below(v, n),
        0 <= n,
    ensures
        ascending_below(v.push(n), n + 1),
        ascending_below(v, n + 1),
{
    let w = v.push(n);
    assert forall|i: int, j: int| 0 <= i < j < w.len() implies #[trigger] w[i] < #[trigger] w[j] by {
        assert(w[i] == v[i]);
        if j < v.len() {
            assert(w[j] == v[j]);
        }
    }
    assert forall|i: int| 0 <= i < w.len() implies 0 <= #[trigger] w[i] < n + 1 by {
        if i < v.len() {
            assert(w[i] == v[i]);
        }
    }
}

proof fn lemma_ascending_len(v: Seq<int>, n: int)
    requires
        ascending_below(v, n),
        0 <= n,
    ensures
        v.len() <= n,
    decreases v.len(),
{
    if v.len() > 0 {
        let last = v[v.len() - 1];
        let rest = v.drop_last();
        assert forall|i: int| 0 <= i < rest.len() implies 0 <= #[trigger] rest[i] < last by {
            assert(rest[i] == v[i]);
        }
        assert forall|i: int, j: int| 0 <= i < j < rest.len() implies #[trigger] rest[i] < #[trigger] rest[j] by {
            assert(rest[i] == v[i] && rest[j] == v[j]);
        }
        lemma_ascending_len(rest, last);
    }
}

proof fn lemma_indexes_on(lines: Seq<Seq<char>>, level: LineLevel, n: nat)
    ensures
        ascending_below(indexes_on(lines, level, n), n as int),
    decreases n,
{
    if n > 0 {
        lemma_indexes_on(lines, level, (n - 1) as nat);
        lemma_ascending_push(indexes_on(lines, level, (n - 1) as nat), n - 1);
    }
}

proof fn lemma_summary_indexes(lines: Seq<Seq<char>>, n: nat)
    ensures
        ascending_below(summary_indexes(lines, n), n as int),
    decreases n,
{
    if n > 0 {
        lemma_summary_indexes(lines, (n - 1) as nat);
        lemma_ascending_push(summary_indexes(lines, (n - 1) as nat), n - 1);
    }
}

proof fn lemma_context_indexes(signals: Seq<int>, context: int, n: nat)
    ensures
        ascending_below(context_indexes(signals, context, n), n as int),
    decreases n,
{
    if n > 0 {
        lemma_context_indexes(signals, context, (n - 1) as nat);
        lemma_ascending_push(context_indexes(signals, context, (n - 1) as nat), n - 1);
    }
}

fn collect_level(c: &Classified, level: LineLevel, Ghost(lines): Ghost<Seq<Seq<char>>>) -> (out: Vec<usize>)
    requires
        c.hold_of(lines),
    ensures
        ints(out@) == indexes_on(lines, level, lines.len()),
{
    let mut out: Vec<usize> = Vec::new();
    let mut i: usize = 0;
    assert(ints(out@) =~= indexes_on(lines, level, 0));
    while i < c.levels.len()
        invariant
            i <= c.levels@.len(),
            c.hold_of(lines),
            ints(out@) == indexes_on(lines, level, i as nat),
        decreases c.levels.len() - i,
    {
        if c.levels[i] == level {
            let ghost before = out@;
            out.push(i);
            assert(ints(out@) =~= ints(before).push(i as int));
        }
        i = i + 1;
    }
    out
}

fn collect_summaries(c: &Classified, Ghost(lines): Ghost<Seq<Seq<char>>>) -> (out: Vec<usize>)
    requires
        c.hold_of(lines),
    ensures
        ints(out@) == summary_indexes(lines, lines.len()),
{
    let mut out: Vec<usize> = Vec::new();
    let mut i: usize = 0;
    assert(ints(out@) =~= summary_indexes(lines, 0));
    while i < c.summaries.len()
        invariant
            i <= c.summaries@.len(),
            c.hold_of(lines),
            ints(out@) == summary_indexes(lines, i as nat),
        decreases c.summaries.len() - i,
    {
        if c.summaries[i] {
            let ghost before = out@;
            out.push(i);
            assert(ints(out@) =~= ints(before).push(i as int));
        }
        i = i + 1;
    }
    out
}

fn score_keys(c: &Classified, indexes: &Vec<usize>, lo: usize, hi: usize, Ghost(lines): Ghost<Seq<Seq<char>>>) -> (keys:
    Vec<u128>)
    requires
        c.hold_of(lines),
        lo <= hi <= indexes@.len(),
        forall|i: int| 0 <= i < indexes@.len() ==> #[trigger] indexes@[i] < lines.len(),
    ensures
        signed_keys(keys@, true) == negated_scores(lines, ints(indexes@).subrange(lo as int, hi as int)),
        keys@.len() == hi - lo,
{
    let mut keys: Vec<u128> = Vec::new();
    let mut i: usize = lo;
    while i < hi
        invariant
            lo <= i <= hi <= indexes@.len(),
            c.hold_of(lines),
            forall|i: int| 0 <= i < indexes@.len() ==> #[trigger] indexes@[i] < lines.len(),
            keys@.len() == i - lo,
            forall|j: int|
                0 <= j < i - lo ==> #[trigger] keys@[j] == line_score(lines[indexes@[lo + j] as int]),
        decreases hi - i,
    {
        assert(indexes@[i as int] < lines.len());
        keys.push(c.score(indexes[i], Ghost(lines)));
        i = i + 1;
    }
    assert(signed_keys(keys@, true) =~= negated_scores(
        lines,
        ints(indexes@).subrange(lo as int, hi as int),
    ));
    keys
}

fn select_first_last_and_top(
    c: &Classified,
    indexes: &Vec<usize>,
    max: usize,
    Ghost(lines): Ghost<Seq<Seq<char>>>,
) -> (out: Vec<usize>)
    requires
        c.hold_of(lines),
        forall|i: int| 0 <= i < indexes@.len() ==> #[trigger] indexes@[i] < lines.len(),
    ensures
        ints(out@) == first_last_and_top(lines, ints(indexes@), max as int),
        forall|i: int| 0 <= i < out@.len() ==> #[trigger] out@[i] < lines.len(),
{
    let n: usize = indexes.len();
    let mut out: Vec<usize> = Vec::new();
    if n <= max || n == 1 {
        let mut i: usize = 0;
        while i < n
            invariant
                i <= n == indexes@.len(),
                out@.len() == i,
                forall|j: int| 0 <= j < i ==> #[trigger] out@[j] == indexes@[j],
            decreases n - i,
        {
            out.push(indexes[i]);
            i = i + 1;
        }
        assert(ints(out@) =~= ints(indexes@));
        return out;
    }
    let keys = score_keys(c, indexes, 1, n - 1, Ghost(lines));
    let order = order_by(&keys, true);
    let room: usize = if max > 2 {
        max - 2
    } else {
        0
    };
    out.push(indexes[0]);
    out.push(indexes[n - 1]);
    let ghost middle = ints(indexes@).subrange(1, n - 1);
    let ghost all_order = ints(order@);
    let mut k: usize = 0;
    while k < room
        invariant
            k <= room <= n - 2,
            n == indexes@.len(),
            order@.len() == n - 2,
            all_order == ints(order@),
            distinct_below(all_order, n - 2),
            middle == ints(indexes@).subrange(1, n - 1),
            out@.len() == 2 + k,
            out@[0] == indexes@[0],
            out@[1] == indexes@[n - 1],
            forall|j: int| 0 <= j < k ==> #[trigger] out@[2 + j] == middle[all_order[j]],
            forall|i: int| 0 <= i < indexes@.len() ==> #[trigger] indexes@[i] < lines.len(),
            forall|i: int| 0 <= i < out@.len() ==> #[trigger] out@[i] < lines.len(),
        decreases room - k,
    {
        assert(all_order[k as int] == order@[k as int]);
        let ghost before = out@;
        out.push(indexes[1 + order[k]]);
        assert forall|j: int| 0 <= j < k + 1 implies #[trigger] out@[2 + j] == middle[all_order[j]] by {
            if j < k {
                assert(out@[2 + j] == before[2 + j]);
            }
        }
        k = k + 1;
    }
    proof {
        let spec_out = seq![ints(indexes@)[0], ints(indexes@).last()] + arranged(
            middle,
            all_order.take(room as int),
        );
        assert(ints(out@).len() == spec_out.len());
        assert forall|i: int| 0 <= i < spec_out.len() implies ints(out@)[i] == spec_out[i] by {
            if i >= 2 {
                assert(out@[2 + (i - 2)] == middle[all_order[i - 2]]);
            }
        }
        assert(ints(out@) =~= spec_out);
    }
    out
}

fn mark_context(signals: &Vec<usize>, context: usize, n: usize) -> (marks: Vec<bool>)
    requires
        forall|i: int| 0 <= i < signals@.len() ==> #[trigger] signals@[i] < n,
    ensures
        marks@.len() == n,
        forall|i: int|
            0 <= i < n ==> #[trigger] marks@[i] == near_signal(ints(signals@), i, context as int),
{
    let mut marks: Vec<bool> = Vec::new();
    let mut i: usize = 0;
    while i < n
        invariant
            i <= n,
            marks@.len() == i,
            forall|j: int| 0 <= j < i ==> !(#[trigger] marks@[j]),
        decreases n - i,
    {
        marks.push(false);
        i = i + 1;
    }
    let ghost ss = ints(signals@);
    let mut k: usize = 0;
    assert forall|j: int| 0 <= j < n implies #[trigger] marks@[j] == near_signal(
        ss.take(0),
        j,
        context as int,
    ) by {
        assert(!near_signal(ss.take(0), j, context as int));
    }
    while k < signals.len()
        invariant
            k <= signals@.len(),
            ss == ints(signals@),
            marks@.len() == n,
            forall|i: int| 0 <= i < signals@.len() ==> #[trigger] signals@[i] < n,
            forall|j: int|
                0 <= j < n ==> #[trigger] marks@[j] == near_signal(ss.take(k as int), j, context as int),
        decreases signals.len() - k,
    {
        let s: usize = signals[k];
        let lo: usize = if s > context {
            s - context
        } else {
            0
        };
        let hi: usize = if n - s > context {
            s + context + 1
        } else {
            n
        };
        let ghost before = marks@;
        let mut j: usize = lo;
        while j < hi
            invariant
                lo <= j <= hi <= n,
                marks@.len() == n == before.len(),
                forall|x: int|
                    0 <= x < n ==> #[trigger] marks@[x] == (before[x] || lo <= x < j),
            decreases hi - j,
        {
            marks.set(j, true);
            j = j + 1;
        }
        let ghost part = ss.take(k + 1);
        assert forall|x: int| 0 <= x < n implies #[trigger] marks@[x] == near_signal(
            part,
            x,
            context as int,
        ) by {
            let old_part = ss.take(k as int);
            assert(part[k as int] == s);
            if near_signal(old_part, x, context as int) {
                let y = choose|y: int|
                    0 <= y < old_part.len() && #[trigger] old_part[y] - context <= x <= old_part[y] + context;
                assert(part[y] == old_part[y]);
            }
            if near_signal(part, x, context as int) {
                let y = choose|y: int|
                    0 <= y < part.len() && #[trigger] part[y] - context <= x <= part[y] + context;
                if y < k {
                    assert(old_part[y] == part[y]);
                }
            }
        }
        k = k + 1;
    }
    assert(ss.take(ss.len() as int) =~= ss);
    marks
}

fn marked_indexes(marks: &Vec<bool>, Ghost(signals): Ghost<Seq<int>>, context: usize) -> (out: Vec<usize>)
    requires
        forall|i: int|
            0 <= i < marks@.len() ==> #[trigger] marks@[i] == near_signal(signals, i, context as int),
    ensures
        ints(out@) == context_indexes(signals, context as int, marks@.len()),
{
    let mut out: Vec<usize> = Vec::new();
    let mut i: usize = 0;
    assert(ints(out@) =~= context_indexes(signals, context as int, 0));
    while i < marks.len()
        invariant
            i <= marks@.len(),
            forall|i: int|
                0 <= i < marks@.len() ==> #[trigger] marks@[i] == near_signal(signals, i, context as int),
            ints(out@) == context_indexes(signals, context as int, i as nat),
        decreases marks.len() - i,
    {
        if marks[i] {
            let ghost before = out@;
            out.push(i);
            assert(ints(out@) =~= ints(before).push(i as int));
        }
        i = i + 1;
    }
    out
}

fn keep_best(near: &Vec<usize>, order: &Vec<usize>, max: usize) -> (out: Vec<usize>)
    requires
        max <= order@.len() == near@.len(),
        distinct_below(ints(order@), near@.len() as int),
    ensures
        ints(out@) == best_places(ints(near@), ints(order@), max as int, near@.len()),
{
    let ghost os = ints(order@);
    let n: usize = near.len();
    let mut best: Vec<bool> = Vec::new();
    let mut i: usize = 0;
    while i < n
        invariant
            i <= n,
            best@.len() == i,
            forall|j: int| 0 <= j < i ==> !(#[trigger] best@[j]),
        decreases n - i,
    {
        best.push(false);
        i = i + 1;
    }
    let mut k: usize = 0;
    while k < max
        invariant
            k <= max <= order@.len() == n,
            os == ints(order@),
            distinct_below(os, n as int),
            best@.len() == n,
            forall|j: int| 0 <= j < n ==> #[trigger] best@[j] == os.take(k as int).contains(j),
        decreases max - k,
    {
        assert(os[k as int] == order@[k as int]);
        let ghost before = best@;
        best.set(order[k], true);
        assert forall|j: int| 0 <= j < n implies #[trigger] best@[j] == os.take(k + 1).contains(j) by {
            let a = os.take(k as int);
            let b = os.take(k + 1);
            if a.contains(j) {
                let x = choose|x: int| 0 <= x < a.len() && a[x] == j;
                assert(b[x] == j);
            }
            if b.contains(j) {
                let x = choose|x: int| 0 <= x < b.len() && b[x] == j;
                if x < k {
                    assert(a[x] == j);
                }
            }
            assert(b[k as int] == os[k as int]);
            assert(best@[j] == (before[j] || j == os[k as int]));
        }
        k = k + 1;
    }
    let mut out: Vec<usize> = Vec::new();
    let mut p: usize = 0;
    assert(ints(out@) =~= best_places(ints(near@), os, max as int, 0));
    while p < n
        invariant
            p <= n == near@.len(),
            best@.len() == n,
            forall|j: int| 0 <= j < n ==> #[trigger] best@[j] == os.take(max as int).contains(j),
            ints(out@) == best_places(ints(near@), os, max as int, p as nat),
        decreases n - p,
    {
        if best[p] {
            let ghost before = out@;
            out.push(near[p]);
            assert(ints(out@) =~= ints(before).push(near@[p as int] as int));
        }
        p = p + 1;
    }
    out
}

proof fn lemma_best_places(indexes: Seq<int>, order: Seq<int>, max: int, n: nat, bound: int)
    requires
        ascending_below(indexes, bound),
        n <= indexes.len(),
    ensures
        ascending_below(best_places(indexes, order, max, n), bound),
        n > 0 ==> forall|i: int|
            0 <= i < best_places(indexes, order, max, n).len() ==> #[trigger] best_places(
                indexes,
                order,
                max,
                n,
            )[i] <= indexes[n - 1],
    decreases n,
{
    if n > 0 {
        lemma_best_places(indexes, order, max, (n - 1) as nat, bound);
        let before = best_places(indexes, order, max, (n - 1) as nat);
        let out = best_places(indexes, order, max, n);
        if n > 1 {
            assert(indexes[n - 2] < indexes[n - 1]);
        }
        assert forall|i: int| 0 <= i < before.len() implies #[trigger] before[i] < indexes[n - 1] by {
            if n == 1 {
                assert(before.len() == 0);
            }
        }
        assert forall|i: int| 0 <= i < out.len() implies 0 <= #[trigger] out[i] < bound && out[i]
            <= indexes[n - 1] by {
            if i < before.len() {
                assert(out[i] == before[i]);
            }
        }
        assert forall|i: int, j: int| 0 <= i < j < out.len() implies #[trigger] out[i] < #[trigger] out[j] by {
            assert(out[i] == before[i]);
            if j < before.len() {
                assert(out[j] == before[j]);
            }
        }
    }
}

/// The lines that stay, stay in their sequence.
pub proof fn kept_lines_stay_in_sequence(lines: Seq<Seq<char>>, config: LogCompressConfig)
    ensures
        ascending_below(kept_indexes(lines, config), lines.len() as int),
        kept_indexes(lines, config).len() <= lines.len(),
{
    let signals = signal_indexes(lines, config);
    let near = context_indexes(signals, config.context_lines as int, lines.len());
    lemma_context_indexes(signals, config.context_lines as int, lines.len());
    lemma_best_places(
        near,
        stable_order(negated_scores(lines, near)),
        config.max_total_lines as int,
        near.len(),
        lines.len() as int,
    );
    lemma_ascending_len(kept_indexes(lines, config), lines.len() as int);
}

/// What the log is kept for, as indexes of lines.
fn find_signals(
    c: &Classified,
    errors: &Vec<usize>,
    warnings: &Vec<usize>,
    config: &LogCompressConfig,
    Ghost(lines): Ghost<Seq<Seq<char>>>,
) -> (out: Vec<usize>)
    requires
        c.hold_of(lines),
        ints(errors@) == indexes_on(lines, LineLevel::Error, lines.len()),
        ints(warnings@) == indexes_on(lines, LineLevel::Warn, lines.len()),
    ensures
        ints(out@) == signal_indexes(lines, *config),
        forall|i: int| 0 <= i < out@.len() ==> #[trigger] out@[i] < lines.len(),
{
    proof {
        lemma_indexes_on(lines, LineLevel::Error, lines.len());
        lemma_indexes_on(lines, LineLevel::Warn, lines.len());
        lemma_summary_indexes(lines, lines.len());
        assert forall|i: int| 0 <= i < errors@.len() implies #[trigger] errors@[i] < lines.len() by {
            assert(ints(errors@)[i] == errors@[i]);
        }
        assert forall|i: int| 0 <= i < warnings@.len() implies #[trigger] warnings@[i] < lines.len() by {
            assert(ints(warnings@)[i] == warnings@[i]);
        }
    }
    let mut out = select_first_last_and_top(c, errors, config.max_errors, Ghost(lines));
    let mut warn = select_first_last_and_top(c, warnings, config.max_warnings, Ghost(lines));
    let mut summaries = collect_summaries(c, Ghost(lines));
    let ghost a = out@;
    let ghost b = warn@;
    let ghost s = summaries@;
    assert forall|i: int| 0 <= i < s.len() implies #[trigger] s[i] < lines.len() by {
        assert(ints(s)[i] == s[i]);
    }
    out.append(&mut warn);
    out.append(&mut summaries);
    assert(ints(out@) =~= ints(a) + ints(b) + ints(s));
    assert forall|i: int| 0 <= i < out@.len() implies #[trigger] out@[i] < lines.len() by {
        if i < a.len() {
            assert(out@[i] == a[i]);
        } else if i < a.len() + b.len() {
            assert(out@[i] == b[i - a.len()]);
        } else {
            assert(out@[i] == s[i - a.len() - b.len()]);
        }
    }
    out
}

fn note_text(omitted: usize, errors: usize, warnings: usize) -> (s: String)
    ensures
        s@ == omission_note(omitted as nat, errors as nat, warnings as nat),
{
    let mut s = copy_str("[");
    let o = decimal_usize(omitted);
    s.append(o.as_str());
    s.append(" lines omitted: ");
    let e = decimal_usize(errors);
    s.append(e.as_str());
    s.append(" error, ");
    let w = decimal_usize(warnings);
    s.append(w.as_str());
    s.append(" warn]");
    s
}

/// The lines that stay of a log with something to keep it for.
fn keep_lines(
    c: &Classified,
    signals: &Vec<usize>,
    n: usize,
    config: &LogCompressConfig,
    Ghost(lines): Ghost<Seq<Seq<char>>>,
) -> (kept: Vec<usize>)
    requires
        c.hold_of(lines),
        n == lines.len(),
        ints(signals@) == signal_indexes(lines, *config),
        forall|i: int| 0 <= i < signals@.len() ==> #[trigger] signals@[i] < lines.len(),
    ensures
        ints(kept@) == kept_indexes(lines, *config),
{
    let marks = mark_context(signals, config.context_lines, n);
    let near = marked_indexes(&marks, Ghost(ints(signals@)), config.context_lines);
    let ghost nm = ints(near@);
    proof {
        lemma_context_indexes(ints(signals@), config.context_lines as int, n as nat);
        assert forall|i: int| 0 <= i < near@.len() implies #[trigger] near@[i] < lines.len() by {
            assert(nm[i] == near@[i]);
        }
    }
    if near.len() > config.max_total_lines {
        let keys = score_keys(c, &near, 0, near.len(), Ghost(lines));
        assert(nm.subrange(0, nm.len() as int) =~= nm);
        let order = order_by(&keys, true);
        keep_best(&near, &order, config.max_total_lines)
    } else {
        near
    }
}

/// The log without the lines that are far from every error, warning and summary.
pub fn compress_log(content: &str, config: &LogCompressConfig) -> (r: LogCompressResult)
    ensures
        ({
            let ls = split_lines(content@);
            &&& r.original_line_count == ls.len()
            &&& signal_indexes(ls, *config).len() == 0 ==> r.content@ == content@ && r.compressed_line_count
                == ls.len()
            &&& signal_indexes(ls, *config).len() > 0 ==> r.content@ == join(log_output(ls, *config), "\n"@)
                && r.compressed_line_count == kept_indexes(ls, *config).len()
        }),
{
    let ls = lines(content);
    let ghost all = views(ls@);
    let c = classify(&ls);
    let errors = collect_level(&c, LineLevel::Error, Ghost(all));
    let warnings = collect_level(&c, LineLevel::Warn, Ghost(all));
    let signals = find_signals(&c, &errors, &warnings, config, Ghost(all));
    assert(ints(signals@).len() == signals@.len());
    if signals.len() == 0 {
        return LogCompressResult {
            original_line_count: ls.len(),
            compressed_line_count: ls.len(),
            content: copy_str(content),
        };
    }
    let kept = keep_lines(&c, &signals, ls.len(), config, Ghost(all));
    let ghost ks = kept_indexes(all, *config);
    proof {
        kept_lines_stay_in_sequence(all, *config);
    }
    assert(kept@.len() == ks.len());
    let mut out: Vec<String> = Vec::new();
    let mut i: usize = 0;
    while i < kept.len()
        invariant
            i <= kept@.len(),
            all == views(ls@),
            ks == ints(kept@),
            ascending_below(ks, all.len() as int),
            out@.len() == i,
            forall|j: int| 0 <= j < i ==> (#[trigger] out@[j])@ == all[ks[j]],
        decreases kept.len() - i,
    {
        assert(ks[i as int] == kept@[i as int]);
        out.push(ls[kept[i]].clone());
        i = i + 1;
    }
    assert(views(out@) =~= arranged(all, ks));
    let omitted: usize = ls.len() - kept.len();
    if omitted > 0 {
        assert(ints(errors@).len() == errors@.len());
        assert(ints(warnings@).len() == warnings@.len());
        out.push(note_text(omitted, errors.len(), warnings.len()));
    }
    assert(views(out@) =~= log_output(all, *config));
    LogCompressResult {
        original_line_count: ls.len(),
        compressed_line_count: kept.len(),
        content: join_texts(&out, "\n"),
    }
}

// ---------------------------------------------------------------------------
// Laws
// ---------------------------------------------------------------------------

/// No more lines stay than the limit allows.
pub proof fn kept_lines_are_capped(lines: Seq<Seq<char>>, config: LogCompressConfig)
    ensures
        kept_indexes(lines, config).len() <= config.max_total_lines,
{
    let near = context_indexes(
        signal_indexes(lines, config),
        config.context_lines as int,
        lines.len(),
    );
    let order = stable_order(negated_scores(lines, near));
    stable_order_sorts(negated_scores(lines, near));
    if near.len() > config.max_total_lines {
        lemma_best_count(near, order, config.max_total_lines as int, near.len());
        lemma_members_below(order.take(config.max_total_lines as int), near.len());
    }
}

/// How many of the indexes below `n` occur in `s`.
spec fn members_below(s: Seq<int>, n: nat) -> nat
    decreases n,
{
    if n == 0 {
        0
    } else {
        members_below(s, (n - 1) as nat) + if s.contains(n - 1) {
            1nat
        } else {
            0nat
        }
    }
}

proof fn lemma_best_count(indexes: Seq<int>, order: Seq<int>, max: int, n: nat)
    ensures
        best_places(indexes, order, max, n).len() == members_below(order.take(max), n),
    decreases n,
{
    if n > 0 {
        lemma_best_count(indexes, order, max, (n - 1) as nat);
    }
}

/// A sequence has no fewer places than members.
proof fn lemma_members_below(s: Seq<int>, n: nat)
    ensures
        members_below(s, n) <= s.len(),
    decreases n, s.len(),
{
    if n > 0 {
        if s.contains(n - 1) {
            let k = choose|k: int| 0 <= k < s.len() && s[k] == n - 1;
            let t = s.remove(k);
            lemma_members_below(t, (n - 1) as nat);
            lemma_members_without(s, k, (n - 1) as nat);
        } else {
            lemma_members_below(s, (n - 1) as nat);
        }
    }
}

/// Taking out a member that is not below `n` changes nothing below `n`.
proof fn lemma_members_without(s: Seq<int>, k: int, n: nat)
    requires
        0 <= k < s.len(),
        s[k] >= n,
    ensures
        members_below(s.remove(k), n) == members_below(s, n),
    decreases n,
{
    if n > 0 {
        lemma_members_without(s, k, (n - 1) as nat);
        let t = s.remove(k);
        let m = n - 1;
        if s.contains(m) {
            let j = choose|j: int| 0 <= j < s.len() && s[j] == m;
            if j < k {
                assert(t[j] == m);
            } else {
                assert(t[j - 1] == m);
            }
        }
        if t.contains(m) {
            let j = choose|j: int| 0 <= j < t.len() && t[j] == m;
            if j < k {
                assert(s[j] == m);
            } else {
                assert(s[j + 1] == m);
            }
        }
    }
}

/// The first and the last error of a log are among what it is kept for.
pub proof fn outer_errors_are_signals(lines: Seq<Seq<char>>, config: LogCompressConfig)
    ensures
        ({
            let errors = indexes_on(lines, LineLevel::Error, lines.len());
            errors.len() > 0 ==> signal_indexes(lines, config).contains(errors[0])
                && signal_indexes(lines, config).contains(errors.last())
        }),
{
    let errors = indexes_on(lines, LineLevel::Error, lines.len());
    let chosen = first_last_and_top(lines, errors, config.max_errors as int);
    let all = signal_indexes(lines, config);
    if errors.len() > 0 {
        let last = if errors.len() <= config.max_errors || errors.len() == 1 {
            errors.len() - 1
        } else {
            1
        };
        assert(chosen[0] == errors[0]);
        assert(chosen[last] == errors.last());
        assert(all[0] == chosen[0]);
        assert(all[last] == chosen[last]);
    }
}

/// The line has a word for an error.
pub open spec fn tells_error(line: Seq<char>) -> bool {
    regex_is_match(r"(?i)\b(error|fatal|critical|fail(ed)?)\b"@, line)
}

/// The line has a word for a warning and none for an error.
pub open spec fn tells_warning(line: Seq<char>) -> bool {
    !tells_error(line) && regex_is_match(r"(?i)\bwarn(ing)?\b"@, line)
}

/// The line sums something up: a rule, a count of tests, a total.
pub open spec fn sums_up(line: Seq<char>) -> bool {
    regex_is_match(
        r"^(={3,}|-{3,}|\d+ (passed|failed|skipped)|TOTAL|Summary)"@,
        trim_start(line),
    )
}

/// How much a line weighs where not all lines can stay.
pub open spec fn weight(line: Seq<char>) -> int {
    (if tells_error(line) {
        100int
    } else if tells_warning(line) {
        50int
    } else if trim(line).len() > 0 {
        10int
    } else {
        1int
    }) + if sums_up(line) {
        40int
    } else {
        0int
    }
}

/// `i` is the index of an error, or of a warning.
pub open spec fn told_at(lines: Seq<Seq<char>>, warning: bool, i: int) -> bool {
    0 <= i < lines.len() && if warning {
        tells_warning(lines[i])
    } else {
        tells_error(lines[i])
    }
}

/// How many errors, or warnings, a log has.
pub open spec fn how_many(lines: Seq<Seq<char>>, warning: bool) -> nat {
    if warning {
        lines.filter(|l: Seq<char>| tells_warning(l)).len()
    } else {
        lines.filter(|l: Seq<char>| tells_error(l)).len()
    }
}

spec fn level_for(warning: bool) -> LineLevel {
    if warning {
        LineLevel::Warn
    } else {
        LineLevel::Error
    }
}

proof fn lemma_indexes_are_told(lines: Seq<Seq<char>>, warning: bool, n: nat)
    requires
        n <= lines.len(),
    ensures
        forall|i: int| #[trigger]
            indexes_on(lines, level_for(warning), n).contains(i) <==> told_at(lines, warning, i) && i
                < n,
        indexes_on(lines, level_for(warning), n).len() == how_many(lines.take(n as int), warning),
    decreases n,
{
    let out = indexes_on(lines, level_for(warning), n);
    reveal(Seq::filter);
    if n > 0 {
        let before = indexes_on(lines, level_for(warning), (n - 1) as nat);
        lemma_indexes_are_told(lines, warning, (n - 1) as nat);
        assert(lines.take(n as int).drop_last() =~= lines.take(n - 1));
        assert(lines.take(n as int).last() == lines[n - 1]);
        assert(level_of(lines[n - 1]) == level_for(warning) <==> told_at(lines, warning, n - 1));
        assert forall|i: int| #[trigger] out.contains(i) <==> told_at(lines, warning, i) && i < n by {
            assert(before.contains(i) <==> told_at(lines, warning, i) && i < n - 1);
            if before.contains(i) {
                let k = choose|k: int| 0 <= k < before.len() && before[k] == i;
                assert(out[k] == i);
            }
            if out.contains(i) {
                let k = choose|k: int| 0 <= k < out.len() && out[k] == i;
                if k < before.len() {
                    assert(before[k] == i);
                }
            }
            if told_at(lines, warning, n - 1) {
                assert(out[out.len() - 1] == n - 1);
            }
        }
    }
}

proof fn lemma_summaries_sum_up(lines: Seq<Seq<char>>, n: nat)
    requires
        n <= lines.len(),
    ensures
        forall|i: int| #[trigger]
            summary_indexes(lines, n).contains(i) <==> 0 <= i < n && sums_up(lines[i]),
    decreases n,
{
    let out = summary_indexes(lines, n);
    if n > 0 {
        let before = summary_indexes(lines, (n - 1) as nat);
        lemma_summaries_sum_up(lines, (n - 1) as nat);
        assert(is_summary(lines[n - 1]) <==> sums_up(lines[n - 1]));
        assert forall|i: int| #[trigger] out.contains(i) <==> 0 <= i < n && sums_up(lines[i]) by {
            assert(before.contains(i) <==> 0 <= i < n - 1 && sums_up(lines[i]));
            if before.contains(i) {
                let k = choose|k: int| 0 <= k < before.len() && before[k] == i;
                assert(out[k] == i);
            }
            if out.contains(i) {
                let k = choose|k: int| 0 <= k < out.len() && out[k] == i;
                if k < before.len() {
                    assert(before[k] == i);
                }
            }
            if sums_up(lines[n - 1]) {
                assert(out[out.len() - 1] == n - 1);
            }
        }
    }
}

/// What is chosen of some lines: all where there are no more than allowed, and else the first, the last
/// and the weightiest between them, the earlier of equals, as many as are allowed.
pub proof fn the_weightiest_are_chosen(lines: Seq<Seq<char>>, indexes: Seq<int>, max: int, i: int, j: int)
    requires
        0 <= max,
        ascending_below(indexes, lines.len() as int),
    ensures
        ({
            let chosen = first_last_and_top(lines, indexes, max);
            &&& chosen.contains(i) ==> indexes.contains(i)
            &&& indexes.len() <= max ==> (indexes.contains(i) ==> chosen.contains(i))
            &&& indexes.len() > 0 ==> chosen.contains(indexes[0]) && chosen.contains(indexes.last())
            &&& indexes.len() > max ==> chosen.len() == (if max > 2 {
                max
            } else if indexes.len() == 1 {
                1
            } else {
                2
            })
            &&& chosen.contains(i) && indexes.contains(j) && !chosen.contains(j) && i != indexes[0] && i
                != indexes.last() ==> weight(lines[i]) > weight(lines[j]) || weight(lines[i]) == weight(
                lines[j],
            ) && i < j
        }),
{
    let chosen = first_last_and_top(lines, indexes, max);
    let n = indexes.len() as int;
    if indexes.len() <= max || indexes.len() == 1 {
        if n > 0 {
            assert(chosen[0] == indexes[0] && chosen[n - 1] == indexes.last());
        }
    } else {
        let middle = indexes.subrange(1, n - 1);
        let keys = negated_scores(lines, middle);
        let order = stable_order(keys);
        let room = if max > 2 {
            max - 2
        } else {
            0
        };
        stable_order_sorts(keys);
        let top = arranged(middle, order.take(room));
        assert(chosen[0] == indexes[0] && chosen[1] == indexes.last());
        assert(chosen == seq![indexes[0], indexes.last()] + top);
        if chosen.contains(i) && i != indexes[0] && i != indexes.last() {
            let c = choose|c: int| 0 <= c < chosen.len() && chosen[c] == i;
            assert(c >= 2);
            let a = c - 2;
            assert(top[a] == i);
            assert(order.take(room)[a] == order[a]);
            assert(middle[order[a]] == i);
            assert(indexes[order[a] + 1] == i);
            if indexes.contains(j) && !chosen.contains(j) {
                let d = choose|d: int| 0 <= d < indexes.len() && indexes[d] == j;
                assert(0 < d < n - 1);
                assert(middle[d - 1] == j);
                assert(order.contains(d - 1));
                let b = choose|b: int| 0 <= b < order.len() && order[b] == d - 1;
                if b < room {
                    assert(order.take(room)[b] == order[b]);
                    assert(chosen[b + 2] == j);
                }
                assert(a < b);
                assert(keys[order[a]] == -line_score(lines[i]));
                assert(keys[order[b]] == -line_score(lines[j]));
                if order[a] < order[b] {
                    assert(indexes[order[a] + 1] < indexes[order[b] + 1]);
                }
            }
        }
        if chosen.contains(i) && !indexes.contains(i) {
            assert(indexes[0] != i && indexes[n - 1] != i);
        }
    }
}

/// What a log is kept for: every line that sums up, every error and every warning where there are no more
/// than allowed, the first and the last error and warning in any case, and nothing else.
pub proof fn signals_are_errors_warnings_and_summaries(
    lines: Seq<Seq<char>>,
    config: LogCompressConfig,
    warning: bool,
    i: int,
)
    ensures
        ({
            let signals = signal_indexes(lines, config);
            let max = if warning {
                config.max_warnings
            } else {
                config.max_errors
            };
            &&& signals.contains(i) ==> 0 <= i < lines.len() && (tells_error(lines[i]) || tells_warning(
                lines[i],
            ) || sums_up(lines[i]))
            &&& 0 <= i < lines.len() && sums_up(lines[i]) ==> signals.contains(i)
            &&& told_at(lines, warning, i) && how_many(lines, warning) <= max ==> signals.contains(i)
            &&& told_at(lines, warning, i) && (forall|k: int|
                k < i ==> !#[trigger] told_at(lines, warning, k)) ==> signals.contains(i)
            &&& told_at(lines, warning, i) && (forall|k: int|
                k > i ==> !#[trigger] told_at(lines, warning, k)) ==> signals.contains(i)
        }),
{
    let n = lines.len();
    let signals = signal_indexes(lines, config);
    let errors = indexes_on(lines, LineLevel::Error, n);
    let warnings = indexes_on(lines, LineLevel::Warn, n);
    let sums = summary_indexes(lines, n);
    let a = first_last_and_top(lines, errors, config.max_errors as int);
    let b = first_last_and_top(lines, warnings, config.max_warnings as int);
    assert(lines.take(n as int) =~= lines);
    lemma_indexes_are_told(lines, false, n);
    lemma_indexes_are_told(lines, true, n);
    lemma_summaries_sum_up(lines, n);
    lemma_indexes_on(lines, LineLevel::Error, n);
    lemma_indexes_on(lines, LineLevel::Warn, n);
    the_weightiest_are_chosen(lines, errors, config.max_errors as int, i, i);
    the_weightiest_are_chosen(lines, warnings, config.max_warnings as int, i, i);
    lemma_contains_parts(a, b, sums, i);
    let those = if warning {
        warnings
    } else {
        errors
    };
    assert(errors.contains(i) <==> told_at(lines, false, i));
    assert(warnings.contains(i) <==> told_at(lines, true, i));
    assert(sums.contains(i) <==> 0 <= i < n && sums_up(lines[i]));
    if told_at(lines, warning, i) {
        assert(those.contains(i));
        let k = choose|k: int| 0 <= k < those.len() && those[k] == i;
        let first = those[0];
        let last = those[those.len() - 1];
        assert(those.contains(first) && those.contains(last));
        assert(told_at(lines, warning, first) && told_at(lines, warning, last));
        if forall|k: int| k < i ==> !#[trigger] told_at(lines, warning, k) {
            assert(first == i) by {
                if k > 0 {
                    assert(those[0] < those[k]);
                }
            }
        }
        if forall|k: int| k > i ==> !#[trigger] told_at(lines, warning, k) {
            assert(last == i) by {
                if k < those.len() - 1 {
                    assert(those[k] < those[those.len() - 1]);
                }
            }
        }
    }
    if 0 <= i < n && sums_up(lines[i]) {
        assert(sums.contains(i));
    }
    if signals.contains(i) {
        if a.contains(i) {
            assert(told_at(lines, false, i));
        } else if b.contains(i) {
            assert(told_at(lines, true, i));
        }
    }
}

proof fn lemma_contains_parts(a: Seq<int>, b: Seq<int>, c: Seq<int>, i: int)
    ensures
        (a + b + c).contains(i) <==> a.contains(i) || b.contains(i) || c.contains(i),
{
    let all = a + b + c;
    if a.contains(i) {
        let k = choose|k: int| 0 <= k < a.len() && a[k] == i;
        assert(all[k] == i);
    }
    if b.contains(i) {
        let k = choose|k: int| 0 <= k < b.len() && b[k] == i;
        assert(all[a.len() + k] == i);
    }
    if c.contains(i) {
        let k = choose|k: int| 0 <= k < c.len() && c[k] == i;
        assert(all[a.len() + b.len() + k] == i);
    }
    if all.contains(i) {
        let k = choose|k: int| 0 <= k < all.len() && all[k] == i;
        if k < a.len() {
            assert(a[k] == i);
        } else if k < a.len() + b.len() {
            assert(b[k - a.len()] == i);
        } else {
            assert(c[k - a.len() - b.len()] == i);
        }
    }
}

/// Line `i` is at most so many lines from one that the log is kept for.
pub open spec fn close_to_signal(lines: Seq<Seq<char>>, config: LogCompressConfig, i: int) -> bool {
    0 <= i < lines.len() && exists|s: int|
        i - config.context_lines <= s <= i + config.context_lines && #[trigger] signal_indexes(
            lines,
            config,
        ).contains(s)
}

proof fn lemma_near_is_close(lines: Seq<Seq<char>>, config: LogCompressConfig, n: nat)
    requires
        n <= lines.len(),
    ensures
        forall|i: int|
            context_indexes(signal_indexes(lines, config), config.context_lines as int, n).contains(i)
                <==> #[trigger] close_to_signal(lines, config, i) && i < n,
    decreases n,
{
    let signals = signal_indexes(lines, config);
    let context = config.context_lines as int;
    let out = context_indexes(signals, context, n);
    if n > 0 {
        let before = context_indexes(signals, context, (n - 1) as nat);
        lemma_near_is_close(lines, config, (n - 1) as nat);
        assert(near_signal(signals, n - 1, context) <==> close_to_signal(lines, config, n - 1)) by {
            if near_signal(signals, n - 1, context) {
                let k = choose|k: int|
                    0 <= k < signals.len() && #[trigger] signals[k] - context <= n - 1 <= signals[k]
                        + context;
                assert(signals.contains(signals[k]));
            }
            if close_to_signal(lines, config, n - 1) {
                let s = choose|s: int|
                    n - 1 - context <= s <= n - 1 + context && #[trigger] signals.contains(s);
                let k = choose|k: int| 0 <= k < signals.len() && signals[k] == s;
                assert(signals[k] - context <= n - 1 <= signals[k] + context);
            }
        }
        assert forall|i: int|
            out.contains(i) <==> #[trigger] close_to_signal(lines, config, i) && i < n by {
            if before.contains(i) {
                let k = choose|k: int| 0 <= k < before.len() && before[k] == i;
                assert(out[k] == i);
            }
            if out.contains(i) {
                let k = choose|k: int| 0 <= k < out.len() && out[k] == i;
                if k < before.len() {
                    assert(before[k] == i);
                }
            }
            if close_to_signal(lines, config, n - 1) {
                assert(out[out.len() - 1] == n - 1);
            }
        }
    }
}

/// How many lines are close to one that the log is kept for.
pub open spec fn how_many_close(lines: Seq<Seq<char>>, config: LogCompressConfig, n: nat) -> nat
    decreases n,
{
    if n == 0 {
        0
    } else {
        how_many_close(lines, config, (n - 1) as nat) + if close_to_signal(lines, config, n - 1) {
            1nat
        } else {
            0nat
        }
    }
}

proof fn lemma_count_close(lines: Seq<Seq<char>>, config: LogCompressConfig, n: nat)
    requires
        n <= lines.len(),
    ensures
        context_indexes(signal_indexes(lines, config), config.context_lines as int, n).len()
            == how_many_close(lines, config, n),
    decreases n,
{
    if n > 0 {
        let signals = signal_indexes(lines, config);
        let context = config.context_lines as int;
        let out = context_indexes(signals, context, n);
        let before = context_indexes(signals, context, (n - 1) as nat);
        lemma_count_close(lines, config, (n - 1) as nat);
        lemma_near_is_close(lines, config, n);
        lemma_context_indexes(signals, context, (n - 1) as nat);
        if close_to_signal(lines, config, n - 1) {
            assert(out.contains(n - 1));
            let k = choose|k: int| 0 <= k < out.len() && out[k] == n - 1;
            if out.len() == before.len() {
                assert(before[k] < n - 1);
            }
        } else if near_signal(signals, n - 1, context) {
            assert(out[out.len() - 1] == n - 1);
            assert(out.contains(n - 1));
        }
    }
}

/// Every line close to one that the log is kept for stays where those lines are no more than allowed, and
/// no other line does. Where they are more, as many as are allowed stay: the weightiest, the earlier of
/// equals.
pub proof fn lines_close_to_signals_stay(
    lines: Seq<Seq<char>>,
    config: LogCompressConfig,
    i: int,
    j: int,
)
    ensures
        ({
            let kept = kept_indexes(lines, config);
            let close = how_many_close(lines, config, lines.len());
            &&& kept.contains(i) ==> close_to_signal(lines, config, i)
            &&& close <= config.max_total_lines ==> (close_to_signal(lines, config, i)
                ==> kept.contains(i))
            &&& kept.len() == (if close <= config.max_total_lines {
                close as int
            } else {
                config.max_total_lines as int
            })
            &&& kept.contains(i) && close_to_signal(lines, config, j) && !kept.contains(j) ==> weight(
                lines[i],
            ) > weight(lines[j]) || weight(lines[i]) == weight(lines[j]) && i < j
        }),
{
    let near = context_indexes(
        signal_indexes(lines, config),
        config.context_lines as int,
        lines.len(),
    );
    let max = config.max_total_lines as int;
    let kept = kept_indexes(lines, config);
    lemma_near_is_close(lines, config, lines.len());
    lemma_count_close(lines, config, lines.len());
    lemma_context_indexes(signal_indexes(lines, config), config.context_lines as int, lines.len());
    assert(near.contains(i) <==> close_to_signal(lines, config, i));
    assert(near.contains(j) <==> close_to_signal(lines, config, j));
    if near.len() > config.max_total_lines {
        let keys = negated_scores(lines, near);
        let order = stable_order(keys);
        stable_order_sorts(keys);
        lemma_best_contains(near, order, max, near.len());
        lemma_best_len(near, order, max);
        if kept.contains(i) {
            let a = choose|a: int| 0 <= a < near.len() && #[trigger] order.take(max).contains(a) && near[a] == i;
            assert(near.contains(i));
            let p = choose|p: int| 0 <= p < max && order.take(max)[p] == a;
            assert(order[p] == a);
            if near.contains(j) && !kept.contains(j) {
                let b = choose|b: int| 0 <= b < near.len() && near[b] == j;
                assert(!order.take(max).contains(b));
                assert(order.contains(b));
                let q = choose|q: int| 0 <= q < order.len() && order[q] == b;
                if q < max {
                    assert(order.take(max)[q] == b);
                }
                assert(p < q);
                assert(keys[order[p]] == -line_score(lines[i]));
                assert(keys[order[q]] == -line_score(lines[j]));
                if order[p] < order[q] {
                    assert(near[order[p]] < near[order[q]]);
                }
            }
        }
    }
}

proof fn lemma_best_contains(indexes: Seq<int>, order: Seq<int>, max: int, n: nat)
    requires
        n <= indexes.len(),
    ensures
        forall|i: int|
            #![trigger best_places(indexes, order, max, n).contains(i)]
            best_places(indexes, order, max, n).contains(i) <==> exists|a: int|
                0 <= a < n && #[trigger] order.take(max).contains(a) && indexes[a] == i,
    decreases n,
{
    let out = best_places(indexes, order, max, n);
    if n > 0 {
        let before = best_places(indexes, order, max, (n - 1) as nat);
        lemma_best_contains(indexes, order, max, (n - 1) as nat);
        assert forall|i: int| #[trigger] out.contains(i) <==> exists|a: int|
            0 <= a < n && #[trigger] order.take(max).contains(a) && indexes[a] == i by {
            if out.contains(i) {
                let k = choose|k: int| 0 <= k < out.len() && out[k] == i;
                if k < before.len() {
                    assert(before[k] == i);
                    assert(before.contains(i));
                } else {
                    assert(order.take(max).contains(n - 1) && indexes[n - 1] == i);
                }
            }
            if exists|a: int| 0 <= a < n && #[trigger] order.take(max).contains(a) && indexes[a] == i {
                let a = choose|a: int|
                    0 <= a < n && #[trigger] order.take(max).contains(a) && indexes[a] == i;
                if a < n - 1 {
                    assert(before.contains(i));
                    let k = choose|k: int| 0 <= k < before.len() && before[k] == i;
                    assert(out[k] == i);
                } else {
                    assert(out[out.len() - 1] == i);
                }
            }
        }
    }
}

/// As many places are picked as the limit says.
proof fn lemma_best_len(indexes: Seq<int>, order: Seq<int>, max: int)
    requires
        0 <= max <= indexes.len(),
        order.len() == indexes.len(),
        distinct_below(order, indexes.len() as int),
    ensures
        best_places(indexes, order, max, indexes.len()).len() == max,
{
    let s = order.take(max);
    lemma_best_count(indexes, order, max, indexes.len());
    assert forall|i: int, j: int| 0 <= i < j < s.len() implies #[trigger] s[i] != #[trigger] s[j] by {
        assert(s[i] == order[i] && s[j] == order[j]);
    }
    assert forall|i: int| 0 <= i < s.len() implies 0 <= #[trigger] s[i] < indexes.len() by {
        assert(s[i] == order[i]);
    }
    lemma_members_exact(s, indexes.len());
}

proof fn lemma_members_exact(s: Seq<int>, n: nat)
    requires
        distinct_below(s, n as int),
    ensures
        members_below(s, n) == s.len(),
    decreases n,
{
    if n == 0 {
        if s.len() > 0 {
            assert(s[0] < n);
        }
    } else if s.contains(n - 1) {
        let k = choose|k: int| 0 <= k < s.len() && s[k] == n - 1;
        let t = s.remove(k);
        assert forall|i: int| 0 <= i < t.len() implies 0 <= #[trigger] t[i] < n - 1 by {
            if i < k {
                assert(t[i] == s[i]);
                assert(s[i] != s[k]);
            } else {
                assert(t[i] == s[i + 1]);
                assert(s[k] != s[i + 1]);
            }
        }
        assert forall|i: int, j: int| 0 <= i < j < t.len() implies #[trigger] t[i] != #[trigger] t[j] by {
            let a = if i < k {
                i
            } else {
                i + 1
            };
            let b = if j < k {
                j
            } else {
                j + 1
            };
            assert(t[i] == s[a] && t[j] == s[b]);
        }
        lemma_members_exact(t, (n - 1) as nat);
        lemma_members_without(s, k, (n - 1) as nat);
    } else {
        assert forall|i: int| 0 <= i < s.len() implies 0 <= #[trigger] s[i] < n - 1 by {
            assert(s.contains(s[i]));
        }
        lemma_members_exact(s, (n - 1) as nat);
    }
}

/// The output is the lines that stay, in their sequence, and where some are left out a note of how many
/// they are and how many errors and warnings the log has.
pub proof fn the_output_is_the_kept_lines_and_a_note(lines: Seq<Seq<char>>, config: LogCompressConfig)
    ensures
        ({
            let kept = kept_indexes(lines, config);
            let out = log_output(lines, config);
            let left = lines.len() - kept.len();
            &&& ascending_below(kept, lines.len() as int)
            &&& out.len() == kept.len() + (if left > 0 {
                1int
            } else {
                0int
            })
            &&& forall|k: int| 0 <= k < kept.len() ==> #[trigger] out[k] == lines[kept[k]]
            &&& left > 0 ==> out.last() == "["@ + dec(left as nat) + " lines omitted: "@ + dec(
                how_many(lines, false),
            ) + " error, "@ + dec(how_many(lines, true)) + " warn]"@
        }),
{
    kept_lines_stay_in_sequence(lines, config);
    assert(lines.take(lines.len() as int) =~= lines);
    lemma_indexes_are_told(lines, false, lines.len());
    lemma_indexes_are_told(lines, true, lines.len());
}

} // verus!
