//! What the compressor saved in a session, by kind of content.
use crate::json::{json_parse, model, parse_json, JsonModel};
use crate::session_prune::{item_models, parse, session_items, with_option, ItemModel, SessionItem};
use crate::text::{
    copy_str, lemma_text_less_irreflexive, lemma_text_less_total, lemma_text_less_transitive,
    same_text, split_lines, text_before, text_less, trim, trim_text,
};
use vstd::prelude::*;

verus! {

#[derive(Debug, Clone, Copy, PartialEq, Eq, Structural)]
pub struct KindStats {
    pub calls: usize,
    pub chars_before: u64,
    pub chars_after: u64,
}

impl Default for KindStats {
    fn default() -> (s: KindStats)
        ensures
            s.calls == 0,
            s.chars_before == 0,
            s.chars_after == 0,
    {
        KindStats { calls: 0, chars_before: 0, chars_after: 0 }
    }
}

impl KindStats {
    /// How many characters were saved: none where more came out than went in.
    pub fn chars_saved(&self) -> (n: u64)
        ensures
            n == (if self.chars_before > self.chars_after {
                self.chars_before - self.chars_after
            } else {
                0
            }),
    {
        self.chars_before.saturating_sub(self.chars_after)
    }
}

/// The calls of a session, in all and by kind in ascending order of the kinds' names.
#[derive(Debug, Clone, PartialEq, Eq)]
pub struct SessionStats {
    pub by_kind: Vec<(String, KindStats)>,
    pub total: KindStats,
}

pub struct StatsModel {
    pub calls: nat,
    pub before: nat,
    pub after: nat,
}

impl View for KindStats {
    type V = StatsModel;

    open spec fn view(&self) -> StatsModel {
        StatsModel {
            calls: self.calls as nat,
            before: self.chars_before as nat,
            after: self.chars_after as nat,
        }
    }
}

pub open spec fn kind_models(v: Seq<(String, KindStats)>) -> Seq<(Seq<char>, StatsModel)> {
    v.map_values(|p: (String, KindStats)| (p.0@, p.1@))
}

/// One call of the compressor.
pub struct CallModel {
    pub kind: Seq<char>,
    pub before: nat,
    pub after: nat,
}

/// The call that a tool result shows: a JSON object with all five keys.
pub open spec fn compressor_call(content: Seq<char>) -> Option<CallModel> {
    match json_parse(trim(content)) {
        Some(value) => match (
            value.get_text("kind"@),
            value.get_unsigned("chars_before"@),
            value.get_unsigned("chars_after"@),
        ) {
            (Some(kind), Some(before), Some(after)) if value.get("compressed"@) is Some
                && value.get("source"@) is Some => Some(
                CallModel { kind, before: before as nat, after: after as nat },
            ),
            _ => None,
        },
        None => None,
    }
}

pub open spec fn item_call(item: ItemModel) -> Option<CallModel> {
    match item {
        ItemModel::Result(r) => compressor_call(r.content),
        ItemModel::Use(_) => None,
    }
}

/// The calls of the items in order.
pub open spec fn calls_in(items: Seq<ItemModel>) -> Seq<CallModel>
    decreases items.len(),
{
    if items.len() == 0 {
        seq![]
    } else {
        with_option(calls_in(items.drop_last()), item_call(items.last()))
    }
}

pub open spec fn nothing() -> StatsModel {
    StatsModel { calls: 0, before: 0, after: 0 }
}

pub open spec fn counted(s: StatsModel, c: CallModel) -> StatsModel {
    StatsModel { calls: s.calls + 1, before: s.before + c.before, after: s.after + c.after }
}

pub open spec fn total_of(calls: Seq<CallModel>) -> StatsModel
    decreases calls.len(),
{
    if calls.len() == 0 {
        nothing()
    } else {
        counted(total_of(calls.drop_last()), calls.last())
    }
}

/// The kinds with one more call, in ascending order.
pub open spec fn with_call(kinds: Seq<(Seq<char>, StatsModel)>, c: CallModel) -> Seq<
    (Seq<char>, StatsModel),
>
    decreases kinds.len(),
{
    if kinds.len() == 0 {
        seq![(c.kind, counted(nothing(), c))]
    } else if kinds[0].0 == c.kind {
        seq![(c.kind, counted(kinds[0].1, c))] + kinds.drop_first()
    } else if text_less(c.kind, kinds[0].0) {
        seq![(c.kind, counted(nothing(), c))] + kinds
    } else {
        seq![kinds[0]] + with_call(kinds.drop_first(), c)
    }
}

pub open spec fn kinds_of(calls: Seq<CallModel>) -> Seq<(Seq<char>, StatsModel)>
    decreases calls.len(),
{
    if calls.len() == 0 {
        seq![]
    } else {
        with_call(kinds_of(calls.drop_last()), calls.last())
    }
}

/// The characters of all calls can be counted.
pub open spec fn countable(calls: Seq<CallModel>) -> bool {
    total_of(calls).before <= u64::MAX && total_of(calls).after <= u64::MAX
}

/// The calls that a transcript shows.
pub open spec fn session_calls(jsonl: Seq<char>) -> Seq<CallModel> {
    calls_in(session_items(split_lines(jsonl)))
}

struct Call {
    kind: String,
    chars_before: u64,
    chars_after: u64,
}

impl Call {
    spec fn model(&self) -> CallModel {
        CallModel {
            kind: self.kind@,
            before: self.chars_before as nat,
            after: self.chars_after as nat,
        }
    }
}

fn read_call(content: &str) -> (r: Option<Call>)
    ensures
        r is Some <==> compressor_call(content@) is Some,
        r matches Some(c) ==> compressor_call(content@) == Some(c.model()),
{
    let trimmed = trim_text(content);
    let value = match parse_json(trimmed.as_str()) {
        Some(v) => v,
        None => {
            return None;
        },
    };
    if value.get("compressed").is_none() || value.get("source").is_none() {
        return None;
    }
    match (
        value.get_text("kind"),
        value.get_unsigned("chars_before"),
        value.get_unsigned("chars_after"),
    ) {
        (Some(kind), Some(chars_before), Some(chars_after)) => Some(
            Call { kind: copy_str(kind), chars_before, chars_after },
        ),
        _ => None,
    }
}

fn read_item(item: &SessionItem) -> (r: Option<Call>)
    ensures
        r is Some <==> item_call(item@) is Some,
        r matches Some(c) ==> item_call(item@) == Some(c.model()),
{
    match item {
        SessionItem::ToolResult(result) => read_call(result.content.as_str()),
        SessionItem::ToolUse(_) => None,
    }
}

proof fn lemma_calls_grow(items: Seq<ItemModel>, i: int)
    requires
        0 <= i <= items.len(),
    ensures
        total_of(calls_in(items.take(i))).before <= total_of(calls_in(items)).before,
        total_of(calls_in(items.take(i))).after <= total_of(calls_in(items)).after,
    decreases items.len() - i,
{
    if i < items.len() {
        lemma_calls_grow(items, i + 1);
        lemma_next_call(items, i);
    } else {
        assert(items.take(i) =~= items);
    }
}

proof fn lemma_next_call(items: Seq<ItemModel>, i: int)
    requires
        0 <= i < items.len(),
    ensures
        calls_in(items.take(i + 1)) == with_option(calls_in(items.take(i)), item_call(items[i])),
        item_call(items[i]) matches Some(c) ==> {
            &&& total_of(calls_in(items.take(i + 1))) == counted(total_of(calls_in(items.take(i))), c)
            &&& kinds_of(calls_in(items.take(i + 1))) == with_call(kinds_of(calls_in(items.take(i))), c)
        },
{
    assert(items.take(i + 1).drop_last() =~= items.take(i));
    match item_call(items[i]) {
        Some(c) => {
            let calls = calls_in(items.take(i));
            assert(calls.push(c).drop_last() =~= calls);
        },
        None => {},
    }
}

proof fn lemma_calls_at_most(items: Seq<ItemModel>)
    ensures
        calls_in(items).len() <= items.len(),
        total_of(calls_in(items)).calls == calls_in(items).len(),
    decreases items.len(),
{
    if items.len() > 0 {
        lemma_calls_at_most(items.drop_last());
        assert(items.drop_last() =~= items.take(items.len() - 1));
        assert(items.take(items.len() as int) =~= items);
        lemma_next_call(items, items.len() - 1);
    }
}

/// Each part is within the whole.
spec fn within(kinds: Seq<(Seq<char>, StatsModel)>, whole: StatsModel) -> bool {
    forall|i: int|
        0 <= i < kinds.len() ==> {
            &&& (#[trigger] kinds[i]).1.calls <= whole.calls
            &&& kinds[i].1.before <= whole.before
            &&& kinds[i].1.after <= whole.after
        }
}

proof fn lemma_with_call_within(
    kinds: Seq<(Seq<char>, StatsModel)>,
    whole: StatsModel,
    c: CallModel,
)
    requires
        within(kinds, whole),
    ensures
        within(with_call(kinds, c), counted(whole, c)),
    decreases kinds.len(),
{
    if kinds.len() > 0 {
        assert forall|i: int| 0 <= i < kinds.drop_first().len() implies ({
            &&& (#[trigger] kinds.drop_first()[i]).1.calls <= whole.calls
            &&& kinds.drop_first()[i].1.before <= whole.before
            &&& kinds.drop_first()[i].1.after <= whole.after
        }) by {
            assert(kinds.drop_first()[i] == kinds[i + 1]);
        }
        lemma_with_call_within(kinds.drop_first(), whole, c);
        let out = with_call(kinds, c);
        assert forall|i: int| 0 <= i < out.len() implies ({
            &&& (#[trigger] out[i]).1.calls <= counted(whole, c).calls
            &&& out[i].1.before <= counted(whole, c).before
            &&& out[i].1.after <= counted(whole, c).after
        }) by {
            assert(within(kinds, whole));
            if kinds[0].0 == c.kind {
                if i > 0 {
                    assert(out[i] == kinds[i]);
                }
            } else if text_less(c.kind, kinds[0].0) {
                if i > 0 {
                    assert(out[i] == kinds[i - 1]);
                }
            } else if i > 0 {
                assert(out[i] == with_call(kinds.drop_first(), c)[i - 1]);
            }
        }
    }
}

proof fn lemma_kinds_within(calls: Seq<CallModel>)
    ensures
        within(kinds_of(calls), total_of(calls)),
    decreases calls.len(),
{
    if calls.len() > 0 {
        lemma_kinds_within(calls.drop_last());
        lemma_with_call_within(
            kinds_of(calls.drop_last()),
            total_of(calls.drop_last()),
            calls.last(),
        );
    }
}

fn count_call(s: &KindStats, c: &Call) -> (r: KindStats)
    requires
        s.calls < usize::MAX,
        s.chars_before + c.chars_before <= u64::MAX,
        s.chars_after + c.chars_after <= u64::MAX,
    ensures
        r@ == counted(s@, c.model()),
{
    KindStats {
        calls: s.calls + 1,
        chars_before: s.chars_before + c.chars_before,
        chars_after: s.chars_after + c.chars_after,
    }
}

fn count_kind(kinds: &mut Vec<(String, KindStats)>, c: Call)
    requires
        forall|i: int|
            0 <= i < old(kinds)@.len() ==> {
                &&& (#[trigger] old(kinds)@[i]).1.calls < usize::MAX
                &&& old(kinds)@[i].1.chars_before + c.chars_before <= u64::MAX
                &&& old(kinds)@[i].1.chars_after + c.chars_after <= u64::MAX
            },
    ensures
        kind_models(final(kinds)@) == with_call(kind_models(old(kinds)@), c.model()),
{
    let ghost all = kind_models(kinds@);
    let ghost m = c.model();
    let mut i: usize = 0;
    assert(all.skip(0) =~= all);
    assert(all.take(0) + with_call(all.skip(0), m) =~= with_call(all, m));
    while i < kinds.len()
        invariant
            i <= kinds@.len(),
            kinds@ == old(kinds)@,
            all == kind_models(old(kinds)@),
            m == c.model(),
            forall|i: int|
                0 <= i < old(kinds)@.len() ==> {
                    &&& (#[trigger] old(kinds)@[i]).1.calls < usize::MAX
                    &&& old(kinds)@[i].1.chars_before + c.chars_before <= u64::MAX
                    &&& old(kinds)@[i].1.chars_after + c.chars_after <= u64::MAX
                },
            all.take(i as int) + with_call(all.skip(i as int), m) == with_call(all, m),
        decreases kinds.len() - i,
    {
        let ghost rest = all.skip(i as int);
        assert(rest[0] == all[i as int]);
        assert(rest.drop_first() =~= all.skip(i + 1));
        if same_text(kinds[i].0.as_str(), c.kind.as_str()) {
            let stats = count_call(&kinds[i].1, &c);
            kinds.set(i, (c.kind, stats));
            assert(kind_models(kinds@) =~= all.take(i as int) + (seq![(m.kind, stats@)] + all.skip(
                i + 1,
            )));
            return ;
        }
        if text_before(c.kind.as_str(), kinds[i].0.as_str()) {
            let stats = count_call(&KindStats::default(), &c);
            kinds.insert(i, (c.kind, stats));
            assert(kind_models(kinds@) =~= all.take(i as int) + (seq![(m.kind, stats@)] + rest));
            return ;
        }
        assert(all.take(i + 1) + with_call(all.skip(i + 1), m) =~= all.take(i as int) + (
        seq![rest[0]] + with_call(rest.drop_first(), m)));
        i = i + 1;
    }
    assert(all.skip(i as int).len() == 0);
    let stats = count_call(&KindStats::default(), &c);
    kinds.push((c.kind, stats));
    assert(kind_models(kinds@) =~= all.take(i as int) + seq![(m.kind, stats@)]);
}

/// Counts the compressor's calls that a transcript shows. Tool results of any other form are
/// passed over.
pub fn scan(jsonl: &str) -> (stats: SessionStats)
    requires
        countable(session_calls(jsonl@)),
    ensures
        stats.total@ == total_of(session_calls(jsonl@)),
        kind_models(stats.by_kind@) == kinds_of(session_calls(jsonl@)),
{
    let items = parse(jsonl);
    let ghost all = item_models(items@);
    let mut total = KindStats::default();
    let mut by_kind: Vec<(String, KindStats)> = Vec::new();
    let mut i: usize = 0;
    assert(all.take(0) =~= seq![]);
    assert(kind_models(by_kind@) =~= seq![]);
    while i < items.len()
        invariant
            i <= items@.len(),
            all == item_models(items@),
            countable(calls_in(all)),
            total@ == total_of(calls_in(all.take(i as int))),
            kind_models(by_kind@) == kinds_of(calls_in(all.take(i as int))),
        decreases items.len() - i,
    {
        let ghost so_far = calls_in(all.take(i as int));
        proof {
            lemma_next_call(all, i as int);
            lemma_calls_grow(all, i + 1);
            lemma_calls_at_most(all.take(i as int));
            lemma_kinds_within(so_far);
        }
        assert(all[i as int] == items@[i as int]@);
        match read_item(&items[i]) {
            Some(call) => {
                total = count_call(&total, &call);
                assert forall|k: int| 0 <= k < by_kind@.len() implies ({
                    &&& (#[trigger] by_kind@[k]).1.calls < usize::MAX
                    &&& by_kind@[k].1.chars_before + call.chars_before <= u64::MAX
                    &&& by_kind@[k].1.chars_after + call.chars_after <= u64::MAX
                }) by {
                    assert(kind_models(by_kind@)[k].1 == by_kind@[k].1@);
                }
                count_kind(&mut by_kind, call);
            },
            None => {},
        }
        i = i + 1;
    }
    assert(all.take(all.len() as int) =~= all);
    SessionStats { by_kind, total }
}

fn is_countable(items: &Vec<SessionItem>) -> (b: bool)
    ensures
        b == countable(calls_in(item_models(items@))),
{
    let ghost all = item_models(items@);
    let mut before: u64 = 0;
    let mut after: u64 = 0;
    let mut i: usize = 0;
    assert(all.take(0) =~= seq![]);
    while i < items.len()
        invariant
            i <= items@.len(),
            all == item_models(items@),
            before == total_of(calls_in(all.take(i as int))).before,
            after == total_of(calls_in(all.take(i as int))).after,
        decreases items.len() - i,
    {
        proof {
            lemma_next_call(all, i as int);
            lemma_calls_grow(all, i + 1);
        }
        assert(all[i as int] == items@[i as int]@);
        match read_item(&items[i]) {
            Some(call) => {
                if call.chars_before > u64::MAX - before || call.chars_after > u64::MAX - after {
                    return false;
                }
                before = before + call.chars_before;
                after = after + call.chars_after;
            },
            None => {},
        }
        i = i + 1;
    }
    assert(all.take(all.len() as int) =~= all);
    true
}

/// The same, or `None` where the characters of the calls are too many to count.
pub fn checked_scan(jsonl: &str) -> (r: Option<SessionStats>)
    ensures
        r is Some <==> countable(session_calls(jsonl@)),
        r matches Some(stats) ==> stats.total@ == total_of(session_calls(jsonl@)) && kind_models(
            stats.by_kind@,
        ) == kinds_of(session_calls(jsonl@)),
{
    let items = parse(jsonl);
    if is_countable(&items) {
        Some(scan(jsonl))
    } else {
        None
    }
}

/// The sum of the parts.
pub open spec fn sum_of(kinds: Seq<(Seq<char>, StatsModel)>) -> StatsModel
    decreases kinds.len(),
{
    if kinds.len() == 0 {
        nothing()
    } else {
        let rest = sum_of(kinds.drop_first());
        StatsModel {
            calls: kinds[0].1.calls + rest.calls,
            before: kinds[0].1.before + rest.before,
            after: kinds[0].1.after + rest.after,
        }
    }
}

proof fn lemma_sum_with_call(kinds: Seq<(Seq<char>, StatsModel)>, c: CallModel)
    ensures
        sum_of(with_call(kinds, c)) == counted(sum_of(kinds), c),
    decreases kinds.len(),
{
    let out = with_call(kinds, c);
    if kinds.len() == 0 {
        assert(out.drop_first() =~= kinds);
    } else if kinds[0].0 == c.kind {
        assert(out.drop_first() =~= kinds.drop_first());
    } else if text_less(c.kind, kinds[0].0) {
        assert(out.drop_first() =~= kinds);
    } else {
        lemma_sum_with_call(kinds.drop_first(), c);
        assert(out.drop_first() =~= with_call(kinds.drop_first(), c));
    }
}

/// The kinds add up to the total.
pub proof fn kinds_add_up(calls: Seq<CallModel>)
    ensures
        sum_of(kinds_of(calls)) == total_of(calls),
    decreases calls.len(),
{
    if calls.len() > 0 {
        kinds_add_up(calls.drop_last());
        lemma_sum_with_call(kinds_of(calls.drop_last()), calls.last());
    }
}

/// What the compressor printed: an object with the text that it made, its source and its kind, and how
/// many characters went in and came out.
pub open spec fn is_report(value: JsonModel, kind: Seq<char>, before: int, after: int) -> bool {
    &&& value.get("compressed"@) is Some
    &&& value.get("source"@) is Some
    &&& value.get("kind"@) == Some(JsonModel::Text(kind))
    &&& value.get("chars_before"@) == Some(JsonModel::Int(before)) && before >= 0
    &&& value.get("chars_after"@) == Some(JsonModel::Int(after)) && after >= 0
}

/// The item is a tool result whose content is a report of the compressor.
pub open spec fn shows_call(item: ItemModel, kind: Seq<char>, before: int, after: int) -> bool {
    item matches ItemModel::Result(r) && (json_parse(trim(r.content)) matches Some(value) && is_report(
        value,
        kind,
        before,
        after,
    ))
}

pub open spec fn shows_some_call(item: ItemModel) -> bool {
    exists|kind: Seq<char>, before: int, after: int| shows_call(item, kind, before, after)
}

/// What is counted for one kind: nothing where no call is of that kind.
pub open spec fn stats_for(kinds: Seq<(Seq<char>, StatsModel)>, kind: Seq<char>) -> StatsModel
    decreases kinds.len(),
{
    if kinds.len() == 0 {
        StatsModel { calls: 0, before: 0, after: 0 }
    } else if kinds[0].0 == kind {
        kinds[0].1
    } else {
        stats_for(kinds.drop_first(), kind)
    }
}

/// The kinds are named in ascending order, each once.
pub open spec fn kinds_ascend(kinds: Seq<(Seq<char>, StatsModel)>) -> bool {
    forall|i: int, j: int|
        0 <= i < j < kinds.len() ==> text_less((#[trigger] kinds[i]).0, (#[trigger] kinds[j]).0)
}

proof fn lemma_item_call(item: ItemModel, kind: Seq<char>, before: int, after: int)
    ensures
        shows_call(item, kind, before, after) <==> item_call(item) == Some(
            CallModel { kind, before: before as nat, after: after as nat },
        ) && before >= 0 && after >= 0,
{
    if shows_call(item, kind, before, after) {
        let value = json_parse(trim(item->Result_0.content))->0;
        assert(value.get_text("kind"@) == Some(kind));
        assert(value.get_unsigned("chars_before"@) == Some(before));
        assert(value.get_unsigned("chars_after"@) == Some(after));
    }
}

proof fn lemma_some_call(item: ItemModel)
    ensures
        shows_some_call(item) <==> item_call(item) is Some,
{
    if item_call(item) is Some {
        let c = item_call(item)->0;
        lemma_item_call(item, c.kind, c.before as int, c.after as int);
        assert(shows_call(item, c.kind, c.before as int, c.after as int));
    }
    if shows_some_call(item) {
        let (k, b, a) = choose|k: Seq<char>, b: int, a: int| shows_call(item, k, b, a);
        lemma_item_call(item, k, b, a);
    }
}

/// Every tool result that is a report adds one call and its characters to the total and to its kind,
/// however many went in and came out; any other item adds nothing, and no kind but its own changes.
pub proof fn every_report_counts(
    items: Seq<ItemModel>,
    item: ItemModel,
    kind: Seq<char>,
    before: int,
    after: int,
    other: Seq<char>,
)
    ensures
        shows_call(item, kind, before, after) ==> ({
            let t = total_of(calls_in(items));
            let k = stats_for(kinds_of(calls_in(items)), kind);
            &&& total_of(calls_in(items.push(item))) == (StatsModel {
                calls: t.calls + 1,
                before: (t.before + before) as nat,
                after: (t.after + after) as nat,
            })
            &&& stats_for(kinds_of(calls_in(items.push(item))), kind) == (StatsModel {
                calls: k.calls + 1,
                before: (k.before + before) as nat,
                after: (k.after + after) as nat,
            })
            &&& other != kind ==> stats_for(kinds_of(calls_in(items.push(item))), other)
                == stats_for(kinds_of(calls_in(items)), other)
        }),
        !shows_some_call(item) ==> calls_in(items.push(item)) == calls_in(items),
        calls_in(Seq::<ItemModel>::empty()).len() == 0,
        total_of(Seq::<CallModel>::empty()) == (StatsModel { calls: 0, before: 0, after: 0 }),
        kinds_of(Seq::<CallModel>::empty()).len() == 0,
{
    let more = items.push(item);
    assert(more.drop_last() =~= items);
    lemma_some_call(item);
    if shows_call(item, kind, before, after) {
        lemma_item_call(item, kind, before, after);
        assert(shows_some_call(item));
        let c = item_call(item)->0;
        let calls = calls_in(items);
        assert(calls_in(more) == calls.push(c));
        assert(calls.push(c).drop_last() =~= calls);
        lemma_kinds_ascend(calls);
        lemma_stats_for(kinds_of(calls), c, kind);
        lemma_stats_for(kinds_of(calls), c, other);
    }
}

proof fn lemma_rest_ascends(kinds: Seq<(Seq<char>, StatsModel)>)
    requires
        kinds.len() > 0,
        kinds_ascend(kinds),
    ensures
        kinds_ascend(kinds.drop_first()),
{
    let rest = kinds.drop_first();
    assert forall|i: int, j: int| 0 <= i < j < rest.len() implies text_less(
        (#[trigger] rest[i]).0,
        (#[trigger] rest[j]).0,
    ) by {
        assert(rest[i] == kinds[i + 1] && rest[j] == kinds[j + 1]);
    }
}

/// A kind below all that are counted has nothing.
proof fn lemma_below_all(kinds: Seq<(Seq<char>, StatsModel)>, kind: Seq<char>)
    requires
        forall|i: int| 0 <= i < kinds.len() ==> text_less(kind, (#[trigger] kinds[i]).0),
    ensures
        stats_for(kinds, kind) == nothing(),
    decreases kinds.len(),
{
    if kinds.len() > 0 {
        lemma_text_less_irreflexive(kind);
        assert(text_less(kind, kinds[0].0));
        assert forall|i: int| 0 <= i < kinds.drop_first().len() implies text_less(
            kind,
            (#[trigger] kinds.drop_first()[i]).0,
        ) by {
            assert(kinds.drop_first()[i] == kinds[i + 1]);
        }
        lemma_below_all(kinds.drop_first(), kind);
    }
}

proof fn lemma_stats_for(kinds: Seq<(Seq<char>, StatsModel)>, c: CallModel, kind: Seq<char>)
    requires
        kinds_ascend(kinds),
    ensures
        stats_for(with_call(kinds, c), kind) == (if kind == c.kind {
            counted(stats_for(kinds, kind), c)
        } else {
            stats_for(kinds, kind)
        }),
    decreases kinds.len(),
{
    let out = with_call(kinds, c);
    if kinds.len() == 0 {
        assert(out.drop_first() =~= kinds);
    } else if kinds[0].0 == c.kind {
        assert(out.drop_first() =~= kinds.drop_first());
    } else if text_less(c.kind, kinds[0].0) {
        assert(out.drop_first() =~= kinds);
        assert forall|i: int| 0 <= i < kinds.len() implies text_less(c.kind, (#[trigger] kinds[i]).0) by {
            if i > 0 {
                assert(text_less(kinds[0].0, kinds[i].0));
                lemma_text_less_transitive(c.kind, kinds[0].0, kinds[i].0);
            }
        }
        lemma_below_all(kinds, c.kind);
    } else {
        lemma_rest_ascends(kinds);
        lemma_stats_for(kinds.drop_first(), c, kind);
        assert(out.drop_first() =~= with_call(kinds.drop_first(), c));
    }
}

proof fn lemma_with_call_ascends(kinds: Seq<(Seq<char>, StatsModel)>, c: CallModel)
    requires
        kinds_ascend(kinds),
    ensures
        kinds_ascend(with_call(kinds, c)),
        forall|i: int|
            0 <= i < with_call(kinds, c).len() ==> (#[trigger] with_call(kinds, c)[i]).0 == c.kind
                || exists|k: int| 0 <= k < kinds.len() && (#[trigger] kinds[k]).0 == with_call(
                kinds,
                c,
            )[i].0,
    decreases kinds.len(),
{
    let out = with_call(kinds, c);
    if kinds.len() == 0 {
    } else if kinds[0].0 == c.kind {
        assert forall|i: int| 0 <= i < out.len() implies (#[trigger] out[i]).0 == kinds[i].0 by {
            if i > 0 {
                assert(out[i] == kinds[i]);
            }
        }
        assert forall|i: int, j: int| 0 <= i < j < out.len() implies text_less(
            (#[trigger] out[i]).0,
            (#[trigger] out[j]).0,
        ) by {
            assert(out[i].0 == kinds[i].0 && out[j].0 == kinds[j].0);
        }
    } else if text_less(c.kind, kinds[0].0) {
        assert forall|i: int| 0 < i < out.len() implies (#[trigger] out[i]) == kinds[i - 1] by {}
        assert forall|i: int, j: int| 0 <= i < j < out.len() implies text_less(
            (#[trigger] out[i]).0,
            (#[trigger] out[j]).0,
        ) by {
            assert(out[j] == kinds[j - 1]);
            if i == 0 {
                if j > 1 {
                    assert(text_less(kinds[0].0, kinds[j - 1].0));
                    lemma_text_less_transitive(c.kind, kinds[0].0, kinds[j - 1].0);
                }
            } else {
                assert(out[i] == kinds[i - 1]);
            }
        }
    } else {
        let rest = kinds.drop_first();
        let tail = with_call(rest, c);
        lemma_rest_ascends(kinds);
        lemma_with_call_ascends(rest, c);
        lemma_text_less_total(c.kind, kinds[0].0);
        assert forall|i: int| 0 < i < out.len() implies (#[trigger] out[i]) == tail[i - 1] by {}
        assert forall|i: int| 0 <= i < tail.len() implies text_less(kinds[0].0, (#[trigger] tail[i]).0) by {
            if tail[i].0 != c.kind {
                let k = choose|k: int| 0 <= k < rest.len() && (#[trigger] rest[k]).0 == tail[i].0;
                assert(rest[k] == kinds[k + 1]);
            }
        }
        assert forall|i: int, j: int| 0 <= i < j < out.len() implies text_less(
            (#[trigger] out[i]).0,
            (#[trigger] out[j]).0,
        ) by {
            assert(out[j] == tail[j - 1]);
            if i > 0 {
                assert(out[i] == tail[i - 1]);
            }
        }
        assert forall|i: int| 0 <= i < out.len() implies (#[trigger] out[i]).0 == c.kind || exists|
            k: int,
        |
            0 <= k < kinds.len() && (#[trigger] kinds[k]).0 == out[i].0 by {
            if i > 0 && tail[i - 1].0 != c.kind {
                let k = choose|k: int| 0 <= k < rest.len() && (#[trigger] rest[k]).0 == tail[i - 1].0;
                assert(kinds[k + 1].0 == out[i].0);
            } else if i == 0 {
                assert(kinds[0].0 == out[0].0);
            }
        }
    }
}

proof fn lemma_kinds_ascend(calls: Seq<CallModel>)
    ensures
        kinds_ascend(kinds_of(calls)),
    decreases calls.len(),
{
    if calls.len() > 0 {
        lemma_kinds_ascend(calls.drop_last());
        lemma_with_call_ascends(kinds_of(calls.drop_last()), calls.last());
    }
}

/// The kinds of a report ascend, each with at least one call, and there are as many calls as tool results
/// that are reports.
pub proof fn calls_are_the_reports(items: Seq<ItemModel>)
    ensures
        kinds_ascend(kinds_of(calls_in(items))),
        forall|i: int|
            0 <= i < kinds_of(calls_in(items)).len() ==> (#[trigger] kinds_of(calls_in(items))[i]).1.calls
                > 0,
        calls_in(items).len() == items.filter(|i: ItemModel| shows_some_call(i)).len(),
        total_of(calls_in(items)).calls == items.filter(|i: ItemModel| shows_some_call(i)).len(),
    decreases items.len(),
{
    lemma_kinds_ascend(calls_in(items));
    lemma_calls_at_most(items);
    lemma_kinds_are_used(calls_in(items));
    reveal(Seq::filter);
    if items.len() > 0 {
        calls_are_the_reports(items.drop_last());
        lemma_some_call(items.last());
    }
}

proof fn lemma_kinds_are_used(calls: Seq<CallModel>)
    ensures
        forall|i: int|
            0 <= i < kinds_of(calls).len() ==> (#[trigger] kinds_of(calls)[i]).1.calls > 0,
    decreases calls.len(),
{
    if calls.len() > 0 {
        lemma_kinds_are_used(calls.drop_last());
        lemma_with_call_used(kinds_of(calls.drop_last()), calls.last());
    }
}

proof fn lemma_with_call_used(kinds: Seq<(Seq<char>, StatsModel)>, c: CallModel)
    requires
        forall|i: int| 0 <= i < kinds.len() ==> (#[trigger] kinds[i]).1.calls > 0,
    ensures
        forall|i: int|
            0 <= i < with_call(kinds, c).len() ==> (#[trigger] with_call(kinds, c)[i]).1.calls > 0,
    decreases kinds.len(),
{
    let out = with_call(kinds, c);
    if kinds.len() > 0 {
        let rest = kinds.drop_first();
        assert forall|i: int| 0 <= i < rest.len() implies (#[trigger] rest[i]).1.calls > 0 by {
            assert(rest[i] == kinds[i + 1]);
        }
        lemma_with_call_used(rest, c);
        assert forall|i: int| 0 <= i < out.len() implies (#[trigger] out[i]).1.calls > 0 by {
            if kinds[0].0 == c.kind {
                if i > 0 {
                    assert(out[i] == rest[i - 1]);
                }
            } else if text_less(c.kind, kinds[0].0) {
                if i > 0 {
                    assert(out[i] == kinds[i - 1]);
                }
            } else if i > 0 {
                assert(out[i] == with_call(rest, c)[i - 1]);
            } else {
                assert(out[0] == kinds[0]);
            }
        }
    }
}

/// The calls of a transcript are those of its items.
pub proof fn a_transcript_shows_what_its_items_show(jsonl: Seq<char>)
    ensures
        session_calls(jsonl) == calls_in(session_items(split_lines(jsonl))),
{
}

} // verus!
