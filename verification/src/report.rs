//! What the program prints about a session, a diagnosis or an encoding.
use crate::doctor::{Check, Status};
use crate::json::{
    count_value, field_models, group_json_models, json_error, json_parse, json_text, models,
    parse_error, parse_json, set_field, text_value, with_field, Json, JsonModel, Number,
};
use crate::order::sum;
use crate::session_digest::{MetaModel, SessionMeta};
use crate::session_prune::{candidate_models, CandidateModel, PruneCandidate};
use crate::session_stats::{kind_models, KindStats, SessionStats, StatsModel};
use crate::text::{
    byte_len, bytes_in, copy_str, dec, decimal, decimal_usize, lemma_text_less_irreflexive,
    lemma_text_less_total, lemma_text_less_transitive, option_view, same_text, text_before, text_less,
    trim, trim_text, views,
};
use crate::toon::{encode_if_smaller, toon_text};
use vstd::prelude::*;

verus! {

/// A field as it is kept in an object.
fn named(name: &str, value: Json) -> (f: (String, Json))
    ensures
        f.0@ == name@,
        f.1 == value,
{
    (copy_str(name), value)
}

fn number(n: u64) -> (j: Json)
    ensures
        j@ == JsonModel::Int(n as int),
{
    Json::Number(Number::PosInt(n))
}

// ---------------------------------------------------------------------------
// Pruning
// ---------------------------------------------------------------------------

/// How often a rule applies, and to how many bytes.
pub struct RuleTotal {
    pub rule: Seq<char>,
    pub count: nat,
    pub bytes: nat,
}

/// The totals with one more candidate, in ascending order of the rules.
pub open spec fn with_candidate(totals: Seq<RuleTotal>, c: CandidateModel) -> Seq<RuleTotal>
    decreases totals.len(),
{
    if totals.len() == 0 {
        seq![RuleTotal { rule: c.rule, count: 1, bytes: c.bytes }]
    } else if totals[0].rule == c.rule {
        seq![
            RuleTotal {
                rule: c.rule,
                count: totals[0].count + 1,
                bytes: totals[0].bytes + c.bytes,
            },
        ] + totals.drop_first()
    } else if text_less(c.rule, totals[0].rule) {
        seq![RuleTotal { rule: c.rule, count: 1, bytes: c.bytes }] + totals
    } else {
        seq![totals[0]] + with_candidate(totals.drop_first(), c)
    }
}

pub open spec fn rule_totals(candidates: Seq<CandidateModel>) -> Seq<RuleTotal>
    decreases candidates.len(),
{
    if candidates.len() == 0 {
        seq![]
    } else {
        with_candidate(rule_totals(candidates.drop_last()), candidates.last())
    }
}

pub open spec fn total_bytes(candidates: Seq<CandidateModel>) -> nat
    decreases candidates.len(),
{
    if candidates.len() == 0 {
        0
    } else {
        total_bytes(candidates.drop_last()) + candidates.last().bytes
    }
}

pub open spec fn total_models(v: Seq<(String, usize, usize)>) -> Seq<RuleTotal> {
    v.map_values(
        |t: (String, usize, usize)| RuleTotal { rule: t.0@, count: t.1 as nat, bytes: t.2 as nat },
    )
}

/// Each total is within the counts of all.
spec fn totals_within(totals: Seq<RuleTotal>, count: nat, bytes: nat) -> bool {
    forall|i: int|
        0 <= i < totals.len() ==> (#[trigger] totals[i]).count <= count && totals[i].bytes <= bytes
}

proof fn lemma_with_candidate(totals: Seq<RuleTotal>, c: CandidateModel, count: nat, bytes: nat)
    requires
        totals_within(totals, count, bytes),
    ensures
        totals_within(with_candidate(totals, c), count + 1, bytes + c.bytes),
    decreases totals.len(),
{
    if totals.len() > 0 {
        let rest = totals.drop_first();
        assert forall|i: int| 0 <= i < rest.len() implies (#[trigger] rest[i]).count <= count
            && rest[i].bytes <= bytes by {
            assert(rest[i] == totals[i + 1]);
        }
        lemma_with_candidate(rest, c, count, bytes);
        let out = with_candidate(totals, c);
        assert forall|i: int| 0 <= i < out.len() implies (#[trigger] out[i]).count <= count + 1
            && out[i].bytes <= bytes + c.bytes by {
            if totals[0].rule == c.rule {
                assert(out[i] == totals[i] || i == 0);
            } else if text_less(c.rule, totals[0].rule) {
                if i > 0 {
                    assert(out[i] == totals[i - 1]);
                }
            } else if i > 0 {
                assert(out[i] == with_candidate(rest, c)[i - 1]);
            }
        }
    }
}

proof fn lemma_rule_totals(candidates: Seq<CandidateModel>)
    ensures
        totals_within(rule_totals(candidates), candidates.len(), total_bytes(candidates)),
    decreases candidates.len(),
{
    if candidates.len() > 0 {
        lemma_rule_totals(candidates.drop_last());
        lemma_with_candidate(
            rule_totals(candidates.drop_last()),
            candidates.last(),
            candidates.drop_last().len(),
            total_bytes(candidates.drop_last()),
        );
    }
}

proof fn lemma_total_bytes(candidates: Seq<CandidateModel>, i: int)
    requires
        0 <= i <= candidates.len(),
    ensures
        total_bytes(candidates.take(i)) <= total_bytes(candidates),
    decreases candidates.len() - i,
{
    if i < candidates.len() {
        lemma_total_bytes(candidates, i + 1);
        assert(candidates.take(i + 1).drop_last() =~= candidates.take(i));
    } else {
        assert(candidates.take(i) =~= candidates);
    }
}

fn count_candidate(totals: &mut Vec<(String, usize, usize)>, c: &PruneCandidate)
    requires
        forall|i: int|
            0 <= i < old(totals)@.len() ==> (#[trigger] old(totals)@[i]).1 < usize::MAX && old(
                totals,
            )@[i].2 + c.bytes <= usize::MAX,
    ensures
        total_models(final(totals)@) == with_candidate(total_models(old(totals)@), c@),
{
    let ghost all = total_models(totals@);
    let mut i: usize = 0;
    assert(all.skip(0) =~= all);
    assert(all.take(0) + with_candidate(all.skip(0), c@) =~= with_candidate(all, c@));
    while i < totals.len()
        invariant
            i <= totals@.len(),
            totals@ == old(totals)@,
            all == total_models(old(totals)@),
            forall|i: int|
                0 <= i < old(totals)@.len() ==> (#[trigger] old(totals)@[i]).1 < usize::MAX && old(
                    totals,
                )@[i].2 + c.bytes <= usize::MAX,
            all.take(i as int) + with_candidate(all.skip(i as int), c@) == with_candidate(all, c@),
        decreases totals.len() - i,
    {
        let ghost rest = all.skip(i as int);
        assert(rest[0] == all[i as int]);
        assert(rest.drop_first() =~= all.skip(i + 1));
        if same_text(totals[i].0.as_str(), c.rule) {
            let count = totals[i].1 + 1;
            let bytes = totals[i].2 + c.bytes;
            let ghost t = RuleTotal { rule: c.rule@, count: count as nat, bytes: bytes as nat };
            totals.set(i, (copy_str(c.rule), count, bytes));
            assert(total_models(totals@) =~= all.take(i as int) + (seq![t] + all.skip(i + 1)));
            return ;
        }
        if text_before(c.rule, totals[i].0.as_str()) {
            let ghost t = RuleTotal { rule: c.rule@, count: 1, bytes: c.bytes as nat };
            totals.insert(i, (copy_str(c.rule), 1, c.bytes));
            assert(total_models(totals@) =~= all.take(i as int) + (seq![t] + rest));
            return ;
        }
        assert(all.take(i + 1) + with_candidate(all.skip(i + 1), c@) =~= all.take(i as int) + (
        seq![rest[0]] + with_candidate(rest.drop_first(), c@)));
        i = i + 1;
    }
    assert(all.skip(i as int).len() == 0);
    let ghost t = RuleTotal { rule: c.rule@, count: 1, bytes: c.bytes as nat };
    totals.push((copy_str(c.rule), 1, c.bytes));
    assert(total_models(totals@) =~= all.take(i as int) + seq![t]);
}

/// The totals of each rule, and the bytes of all candidates.
pub fn count_by_rule(candidates: &[PruneCandidate]) -> (r: (Vec<(String, usize, usize)>, usize))
    requires
        total_bytes(candidate_models(candidates@)) <= usize::MAX,
    ensures
        total_models(r.0@) == rule_totals(candidate_models(candidates@)),
        r.1 == total_bytes(candidate_models(candidates@)),
{
    let ghost all = candidate_models(candidates@);
    let mut totals: Vec<(String, usize, usize)> = Vec::new();
    let mut bytes: usize = 0;
    let mut i: usize = 0;
    assert(all.take(0) =~= seq![]);
    assert(total_models(totals@) =~= seq![]);
    while i < candidates.len()
        invariant
            i <= candidates@.len(),
            all == candidate_models(candidates@),
            total_bytes(all) <= usize::MAX,
            total_models(totals@) == rule_totals(all.take(i as int)),
            bytes == total_bytes(all.take(i as int)),
        decreases candidates.len() - i,
    {
        let ghost upto = all.take(i as int);
        assert(all.take(i + 1).drop_last() =~= upto);
        assert(all.take(i + 1).last() == candidates@[i as int]@);
        let c = &candidates[i];
        proof {
            lemma_total_bytes(all, i + 1);
            lemma_rule_totals(upto);
            assert forall|k: int| 0 <= k < totals@.len() implies (#[trigger] totals@[k]).1
                < usize::MAX && totals@[k].2 + c.bytes <= usize::MAX by {
                assert(total_models(totals@)[k].count == totals@[k].1);
                assert(total_models(totals@)[k].bytes == totals@[k].2);
            }
        }
        count_candidate(&mut totals, c);
        bytes = bytes + c.bytes;
        i = i + 1;
    }
    assert(all.take(all.len() as int) =~= all);
    (totals, bytes)
}

pub open spec fn rule_counts(totals: Seq<RuleTotal>) -> Seq<(Seq<char>, JsonModel)> {
    totals.map_values(|t: RuleTotal| (t.rule, JsonModel::Int(t.count as int)))
}

pub open spec fn prune_report(candidates: Seq<CandidateModel>) -> JsonModel {
    JsonModel::Object(
        seq![
            ("by_rule"@, JsonModel::Object(rule_counts(rule_totals(candidates)))),
            ("bytes_prunable"@, JsonModel::Int(total_bytes(candidates) as int)),
            ("candidates"@, JsonModel::Int(candidates.len() as int)),
        ],
    )
}

/// How many candidates there are, by rule, and how many bytes.
pub fn prune_json(candidates: &[PruneCandidate]) -> (j: Json)
    requires
        total_bytes(candidate_models(candidates@)) <= usize::MAX,
    ensures
        j@ == prune_report(candidate_models(candidates@)),
{
    broadcast use group_json_models;

    let (totals, bytes) = count_by_rule(candidates);
    let mut counts: Vec<(String, Json)> = Vec::new();
    let mut i: usize = 0;
    while i < totals.len()
        invariant
            i <= totals@.len(),
            counts@.len() == i,
            forall|k: int|
                0 <= k < i ==> (#[trigger] counts@[k]).0@ == totals@[k].0@ && counts@[k].1@
                    == JsonModel::Int(totals@[k].1 as int),
        decreases totals.len() - i,
    {
        counts.push((copy_str(totals[i].0.as_str()), count_value(totals[i].1)));
        i = i + 1;
    }
    assert(field_models(counts@) =~= rule_counts(total_models(totals@)));
    let by_rule = Json::Object(counts);
    let fields = vec![
        named("by_rule", by_rule),
        named("bytes_prunable", count_value(bytes)),
        named("candidates", count_value(candidates.len())),
    ];
    assert(candidate_models(candidates@).len() == candidates@.len());
    assert(field_models(fields@) =~= seq![
        ("by_rule"@, JsonModel::Object(rule_counts(rule_totals(candidate_models(candidates@))))),
        ("bytes_prunable"@, JsonModel::Int(bytes as int)),
        ("candidates"@, JsonModel::Int(candidates@.len() as int)),
    ]);
    Json::Object(fields)
}

pub open spec fn prune_line(name: Seq<char>, count: nat, bytes: nat) -> Seq<char> {
    name + ": "@ + dec(count) + " candidates, "@ + dec(bytes) + " bytes prunable"@
}

/// A line for each rule and one for all.
pub open spec fn prune_text(candidates: Seq<CandidateModel>) -> Seq<Seq<char>> {
    rule_totals(candidates).map_values(|t: RuleTotal| prune_line(t.rule, t.count, t.bytes)).push(
        prune_line("total"@, candidates.len(), total_bytes(candidates)),
    )
}

fn write_prune_line(name: &str, count: usize, bytes: usize) -> (s: String)
    ensures
        s@ == prune_line(name@, count as nat, bytes as nat),
{
    let mut s = copy_str(name);
    s.append(": ");
    let c = decimal_usize(count);
    s.append(c.as_str());
    s.append(" candidates, ");
    let b = decimal_usize(bytes);
    s.append(b.as_str());
    s.append(" bytes prunable");
    s
}

pub fn prune_lines(candidates: &[PruneCandidate]) -> (out: Vec<String>)
    requires
        total_bytes(candidate_models(candidates@)) <= usize::MAX,
    ensures
        views(out@) == prune_text(candidate_models(candidates@)),
{
    let (totals, bytes) = count_by_rule(candidates);
    let mut out: Vec<String> = Vec::new();
    let mut i: usize = 0;
    while i < totals.len()
        invariant
            i <= totals@.len(),
            out@.len() == i,
            forall|k: int|
                0 <= k < i ==> (#[trigger] out@[k])@ == prune_line(
                    totals@[k].0@,
                    totals@[k].1 as nat,
                    totals@[k].2 as nat,
                ),
        decreases totals.len() - i,
    {
        out.push(write_prune_line(totals[i].0.as_str(), totals[i].1, totals[i].2));
        i = i + 1;
    }
    out.push(write_prune_line("total", candidates.len(), bytes));
    assert(candidate_models(candidates@).len() == candidates@.len());
    assert(total_models(totals@).len() == totals@.len());
    assert(views(out@) =~= prune_text(candidate_models(candidates@)));
    out
}

// ---------------------------------------------------------------------------
// Digest
// ---------------------------------------------------------------------------

pub open spec fn text_or_null(s: Option<Seq<char>>) -> JsonModel {
    match s {
        Some(t) => JsonModel::Text(t),
        None => JsonModel::Null,
    }
}

fn text_or_nothing(s: &Option<String>) -> (j: Json)
    ensures
        j@ == text_or_null(option_view(*s)),
{
    match s {
        Some(t) => text_value(t.as_str()),
        None => Json::Null,
    }
}

pub open spec fn digest_report(
    content: Seq<char>,
    m: MetaModel,
    total_lines: int,
    chars_before: int,
    chars_after: int,
) -> JsonModel {
    JsonModel::Object(
        seq![
            ("chars_after"@, JsonModel::Int(chars_after)),
            ("chars_before"@, JsonModel::Int(chars_before)),
            ("content"@, JsonModel::Text(content)),
            ("cwd"@, text_or_null(m.cwd)),
            ("first_ts"@, text_or_null(m.first_ts)),
            ("last_ts"@, text_or_null(m.last_ts)),
            ("raw_bytes"@, JsonModel::Int(m.raw_bytes as int)),
            ("session_id"@, text_or_null(m.session_id)),
            ("total_lines"@, JsonModel::Int(total_lines)),
            ("truncated"@, JsonModel::Bool(m.truncated)),
            ("turn_count"@, JsonModel::Int(m.turn_count as int)),
        ],
    )
}

/// A digest with what is known of its session.
pub fn digest_json(
    content: &str,
    meta: &SessionMeta,
    total_lines: usize,
    chars_before: usize,
    chars_after: usize,
) -> (j: Json)
    ensures
        j@ == digest_report(
            content@,
            meta@,
            total_lines as int,
            chars_before as int,
            chars_after as int,
        ),
{
    broadcast use group_json_models;

    let fields = vec![
        named("chars_after", count_value(chars_after)),
        named("chars_before", count_value(chars_before)),
        named("content", text_value(content)),
        named("cwd", text_or_nothing(&meta.cwd)),
        named("first_ts", text_or_nothing(&meta.first_ts)),
        named("last_ts", text_or_nothing(&meta.last_ts)),
        named("raw_bytes", count_value(meta.raw_bytes)),
        named("session_id", text_or_nothing(&meta.session_id)),
        named("total_lines", count_value(total_lines)),
        named("truncated", Json::Bool(meta.truncated)),
        named("turn_count", count_value(meta.turn_count)),
    ];
    assert(field_models(fields@) =~= digest_report(
        content@,
        meta@,
        total_lines as int,
        chars_before as int,
        chars_after as int,
    )->Object_0);
    Json::Object(fields)
}

// ---------------------------------------------------------------------------
// Savings
// ---------------------------------------------------------------------------

pub open spec fn saved(s: StatsModel) -> int {
    if s.before > s.after {
        s.before - s.after
    } else {
        0
    }
}

/// The counts of a kind, with the percentage that was saved.
pub open spec fn kind_report(s: StatsModel, percent: JsonModel) -> Seq<(Seq<char>, JsonModel)> {
    seq![
        ("calls"@, JsonModel::Int(s.calls as int)),
        ("chars_after"@, JsonModel::Int(s.after as int)),
        ("chars_before"@, JsonModel::Int(s.before as int)),
        ("chars_saved"@, JsonModel::Int(saved(s))),
        ("pct_saved"@, percent),
    ]
}

pub open spec fn kind_reports(kinds: Seq<(Seq<char>, StatsModel)>, percents: Seq<JsonModel>) -> Seq<
    (Seq<char>, JsonModel),
> {
    Seq::new(
        kinds.len(),
        |i: int| (kinds[i].0, JsonModel::Object(kind_report(kinds[i].1, percents[i]))),
    )
}

pub open spec fn stats_report(
    kinds: Seq<(Seq<char>, StatsModel)>,
    total: StatsModel,
    percents: Seq<JsonModel>,
    total_percent: JsonModel,
) -> JsonModel {
    JsonModel::Object(
        seq![("by_kind"@, JsonModel::Object(kind_reports(kinds, percents)))] + kind_report(
            total,
            total_percent,
        ),
    )
}

fn add_kind_fields(fields: &mut Vec<(String, Json)>, s: &KindStats, percent: &Json)
    ensures
        field_models(final(fields)@) == field_models(old(fields)@) + kind_report(s@, percent@),
{
    let ghost before = fields@;
    fields.push(named("calls", count_value(s.calls)));
    fields.push(named("chars_after", number(s.chars_after)));
    fields.push(named("chars_before", number(s.chars_before)));
    fields.push(named("chars_saved", number(s.chars_saved())));
    fields.push(named("pct_saved", percent.copy()));
    assert(field_models(fields@) =~= field_models(before) + kind_report(s@, percent@));
}

fn json_of_kind(s: &KindStats, percent: &Json) -> (j: Json)
    ensures
        j@ == JsonModel::Object(kind_report(s@, percent@)),
{
    broadcast use group_json_models;

    let mut fields: Vec<(String, Json)> = Vec::new();
    assert(field_models(fields@) =~= seq![]);
    add_kind_fields(&mut fields, s, percent);
    assert(seq![] + kind_report(s@, percent@) =~= kind_report(s@, percent@));
    Json::Object(fields)
}

/// The savings of a session. The percentages stand in the order of the kinds.
pub fn stats_json(stats: &SessionStats, percents: &Vec<Json>, total_percent: &Json) -> (j: Json)
    requires
        percents@.len() == stats.by_kind@.len(),
    ensures
        j@ == stats_report(
            kind_models(stats.by_kind@),
            stats.total@,
            models(percents@),
            total_percent@,
        ),
{
    broadcast use group_json_models;

    let ghost kinds = kind_models(stats.by_kind@);
    let mut by_kind: Vec<(String, Json)> = Vec::new();
    let mut i: usize = 0;
    while i < stats.by_kind.len()
        invariant
            i <= stats.by_kind@.len() == percents@.len(),
            kinds == kind_models(stats.by_kind@),
            by_kind@.len() == i,
            forall|k: int|
                0 <= k < i ==> (#[trigger] by_kind@[k]).0@ == kinds[k].0 && by_kind@[k].1@
                    == JsonModel::Object(kind_report(kinds[k].1, percents@[k]@)),
        decreases stats.by_kind.len() - i,
    {
        let value = json_of_kind(&stats.by_kind[i].1, &percents[i]);
        by_kind.push((copy_str(stats.by_kind[i].0.as_str()), value));
        i = i + 1;
    }
    assert(field_models(by_kind@) =~= kind_reports(kinds, models(percents@)));
    let value = Json::Object(by_kind);
    let mut fields = vec![named("by_kind", value)];
    assert(field_models(fields@) =~= seq![
        ("by_kind"@, JsonModel::Object(kind_reports(kinds, models(percents@)))),
    ]);
    add_kind_fields(&mut fields, &stats.total, total_percent);
    Json::Object(fields)
}

pub open spec fn stats_line(name: Seq<char>, s: StatsModel, percent: Seq<char>) -> Seq<char> {
    name + ": "@ + dec(s.calls) + " calls, "@ + dec(s.before) + " -> "@ + dec(s.after)
        + " chars ("@ + percent + "% saved)"@
}

/// A line for each kind and one for all, or that there is nothing to count.
pub open spec fn stats_text(
    kinds: Seq<(Seq<char>, StatsModel)>,
    total: StatsModel,
    percents: Seq<Seq<char>>,
    total_percent: Seq<char>,
) -> Seq<Seq<char>> {
    if total.calls == 0 {
        seq!["no squishi --json calls found in this transcript"@]
    } else {
        Seq::new(kinds.len(), |i: int| stats_line(kinds[i].0, kinds[i].1, percents[i])).push(
            stats_line("total"@, total, total_percent),
        )
    }
}

fn write_stats_line(name: &str, s: &KindStats, percent: &str) -> (out: String)
    ensures
        out@ == stats_line(name@, s@, percent@),
{
    let mut out = copy_str(name);
    out.append(": ");
    let calls = decimal_usize(s.calls);
    out.append(calls.as_str());
    out.append(" calls, ");
    let before = decimal(s.chars_before);
    out.append(before.as_str());
    out.append(" -> ");
    let after = decimal(s.chars_after);
    out.append(after.as_str());
    out.append(" chars (");
    out.append(percent);
    out.append("% saved)");
    out
}

pub fn stats_lines(stats: &SessionStats, percents: &Vec<String>, total_percent: &str) -> (out: Vec<
    String,
>)
    requires
        percents@.len() == stats.by_kind@.len(),
    ensures
        views(out@) == stats_text(
            kind_models(stats.by_kind@),
            stats.total@,
            views(percents@),
            total_percent@,
        ),
{
    let ghost kinds = kind_models(stats.by_kind@);
    let mut out: Vec<String> = Vec::new();
    if stats.total.calls == 0 {
        out.push(copy_str("no squishi --json calls found in this transcript"));
        assert(views(out@) =~= seq!["no squishi --json calls found in this transcript"@]);
        return out;
    }
    let mut i: usize = 0;
    while i < stats.by_kind.len()
        invariant
            i <= stats.by_kind@.len() == percents@.len(),
            kinds == kind_models(stats.by_kind@),
            out@.len() == i,
            forall|k: int|
                0 <= k < i ==> (#[trigger] out@[k])@ == stats_line(
                    kinds[k].0,
                    kinds[k].1,
                    percents@[k]@,
                ),
        decreases stats.by_kind.len() - i,
    {
        let line = write_stats_line(
            stats.by_kind[i].0.as_str(),
            &stats.by_kind[i].1,
            percents[i].as_str(),
        );
        out.push(line);
        i = i + 1;
    }
    out.push(write_stats_line("total", &stats.total, total_percent));
    assert(kinds.len() == stats.by_kind@.len());
    assert(views(out@) =~= stats_text(kinds, stats.total@, views(percents@), total_percent@));
    out
}

// ---------------------------------------------------------------------------
// Encoding and diagnosis
// ---------------------------------------------------------------------------

/// The TOON form of a JSON text is worth having: it takes fewer bytes than the text, and fewer than the
/// compact JSON of the value.
pub open spec fn toon_is_shorter(text: Seq<char>, value: JsonModel) -> bool {
    byte_len(toon_text(value)) < byte_len(json_text(value)) && byte_len(toon_text(value)) < byte_len(
        text,
    )
}

/// The TOON form of the value of a JSON text where that is shorter, or else the text unchanged, and
/// which it is.
pub fn shorter_form(text: &str, value: &Json) -> (r: (String, &'static str))
    ensures
        toon_is_shorter(text@, value@) ==> r.0@ == toon_text(value@) && r.1@ == "toon"@,
        !toon_is_shorter(text@, value@) ==> r.0@ == text@ && r.1@ == "toon-not-smaller"@,
        r.0@ == text@ || byte_len(r.0@) < byte_len(text@),
{
    match encode_if_smaller(value) {
        Some(toon) => {
            if bytes_in(toon.as_str()) < bytes_in(text) {
                (toon, "toon")
            } else {
                (copy_str(text), "toon-not-smaller")
            }
        },
        None => (copy_str(text), "toon-not-smaller"),
    }
}

/// What is printed for a text that is to be encoded: its shorter form, or what is wrong with a text that
/// is no JSON.
pub fn toon_form(text: &str) -> (r: Result<(String, &'static str), String>)
    ensures
        r is Ok <==> json_parse(trim(text@)) is Some,
        r matches Err(e) ==> e@ == json_error(trim(text@)),
        r matches Ok(f) ==> ({
            let value = json_parse(trim(text@))->0;
            &&& toon_is_shorter(text@, value) ==> f.0@ == toon_text(value) && f.1@ == "toon"@
            &&& !toon_is_shorter(text@, value) ==> f.0@ == text@ && f.1@ == "toon-not-smaller"@
        }),
{
    let trimmed = trim_text(text);
    match parse_json(trimmed.as_str()) {
        Some(value) => Ok(shorter_form(text, &value)),
        None => Err(parse_error(trimmed.as_str())),
    }
}

pub open spec fn form_report(compressed: Seq<char>, source: Seq<char>, chars_before: int) -> JsonModel {
    JsonModel::Object(
        seq![
            ("chars_after"@, JsonModel::Int(byte_len(compressed) as int)),
            ("chars_before"@, JsonModel::Int(chars_before)),
            ("compressed"@, JsonModel::Text(compressed)),
            ("source"@, JsonModel::Text(source)),
        ],
    )
}

pub fn form_json(compressed: &str, source: &str, chars_before: usize) -> (j: Json)
    ensures
        j@ == form_report(compressed@, source@, chars_before as int),
{
    broadcast use group_json_models;

    let fields = vec![
        named("chars_after", count_value(bytes_in(compressed))),
        named("chars_before", count_value(chars_before)),
        named("compressed", text_value(compressed)),
        named("source", text_value(source)),
    ];
    assert(field_models(fields@) =~= form_report(
        compressed@,
        source@,
        chars_before as int,
    )->Object_0);
    Json::Object(fields)
}

pub open spec fn status_label(s: Status) -> Seq<char> {
    match s {
        Status::Pass => "PASS"@,
        Status::Warn => "WARN"@,
        Status::Fail => "FAIL"@,
        Status::Skipped => "SKIP"@,
    }
}

/// A check on a line.
pub fn check_line(c: &Check) -> (s: String)
    ensures
        s@ == status_label(c.status) + "  "@ + c.name@ + ": "@ + c.message@,
{
    let label = match c.status {
        Status::Pass => "PASS",
        Status::Warn => "WARN",
        Status::Fail => "FAIL",
        Status::Skipped => "SKIP",
    };
    let mut s = copy_str(label);
    s.append("  ");
    s.append(c.name.as_str());
    s.append(": ");
    s.append(c.message.as_str());
    s
}

/// The report on an item of a batch, which carries its id.
pub fn batch_report(id: &str, fields: Vec<(String, Json)>) -> (j: Json)
    ensures
        j@ == JsonModel::Object(with_field(field_models(fields@), "id"@, JsonModel::Text(id@))),
{
    broadcast use group_json_models;

    let mut fields = fields;
    set_field(&mut fields, copy_str("id"), text_value(id));
    Json::Object(fields)
}

/// The bytes of the rules add up to the bytes of all.
pub proof fn rules_add_up(candidates: Seq<CandidateModel>)
    ensures
        sum_of_bytes(rule_totals(candidates)) == total_bytes(candidates),
        sum_of_counts(rule_totals(candidates)) == candidates.len(),
    decreases candidates.len(),
{
    if candidates.len() > 0 {
        rules_add_up(candidates.drop_last());
        lemma_sums(rule_totals(candidates.drop_last()), candidates.last());
    }
}

pub open spec fn sum_of_bytes(totals: Seq<RuleTotal>) -> nat
    decreases totals.len(),
{
    if totals.len() == 0 {
        0
    } else {
        totals[0].bytes + sum_of_bytes(totals.drop_first())
    }
}

pub open spec fn sum_of_counts(totals: Seq<RuleTotal>) -> nat
    decreases totals.len(),
{
    if totals.len() == 0 {
        0
    } else {
        totals[0].count + sum_of_counts(totals.drop_first())
    }
}

proof fn lemma_sums(totals: Seq<RuleTotal>, c: CandidateModel)
    ensures
        sum_of_bytes(with_candidate(totals, c)) == sum_of_bytes(totals) + c.bytes,
        sum_of_counts(with_candidate(totals, c)) == sum_of_counts(totals) + 1,
    decreases totals.len(),
{
    let out = with_candidate(totals, c);
    if totals.len() == 0 {
        assert(out.drop_first() =~= totals);
    } else if totals[0].rule == c.rule {
        assert(out.drop_first() =~= totals.drop_first());
    } else if text_less(c.rule, totals[0].rule) {
        assert(out.drop_first() =~= totals);
    } else {
        lemma_sums(totals.drop_first(), c);
        assert(out.drop_first() =~= with_candidate(totals.drop_first(), c));
    }
}

// ---------------------------------------------------------------------------
// Laws
// ---------------------------------------------------------------------------

/// The totals of different rules, in ascending order.
pub open spec fn rules_ascend(totals: Seq<RuleTotal>) -> bool {
    forall|i: int, j: int|
        0 <= i < j < totals.len() ==> text_less((#[trigger] totals[i]).rule, (#[trigger] totals[j]).rule)
}

/// The candidates of a rule.
pub open spec fn found_by(candidates: Seq<CandidateModel>, rule: Seq<char>) -> Seq<CandidateModel> {
    candidates.filter(|c: CandidateModel| c.rule == rule)
}

/// How many bytes candidates have together.
pub open spec fn bytes_of(candidates: Seq<CandidateModel>) -> nat {
    sum(candidates.map_values(|c: CandidateModel| c.bytes))
}

spec fn count_for(totals: Seq<RuleTotal>, rule: Seq<char>) -> (nat, nat)
    decreases totals.len(),
{
    if totals.len() == 0 {
        (0, 0)
    } else if totals[0].rule == rule {
        (totals[0].count, totals[0].bytes)
    } else {
        count_for(totals.drop_first(), rule)
    }
}

proof fn lemma_count_for_none(totals: Seq<RuleTotal>, rule: Seq<char>)
    requires
        forall|i: int| 0 <= i < totals.len() ==> (#[trigger] totals[i]).rule != rule,
    ensures
        count_for(totals, rule) == (0nat, 0nat),
    decreases totals.len(),
{
    if totals.len() > 0 {
        let rest = totals.drop_first();
        assert(totals[0].rule != rule);
        assert forall|i: int| 0 <= i < rest.len() implies (#[trigger] rest[i]).rule != rule by {
            assert(rest[i] == totals[i + 1]);
        }
        lemma_count_for_none(rest, rule);
    }
}

proof fn lemma_count_for_at(totals: Seq<RuleTotal>, k: int)
    requires
        rules_ascend(totals),
        0 <= k < totals.len(),
    ensures
        count_for(totals, totals[k].rule) == (totals[k].count, totals[k].bytes),
    decreases totals.len(),
{
    if k > 0 {
        let rest = totals.drop_first();
        assert(text_less(totals[0].rule, totals[k].rule));
        lemma_text_less_irreflexive(totals[k].rule);
        assert forall|i: int, j: int| 0 <= i < j < rest.len() implies text_less(
            (#[trigger] rest[i]).rule,
            (#[trigger] rest[j]).rule,
        ) by {
            assert(rest[i] == totals[i + 1] && rest[j] == totals[j + 1]);
        }
        lemma_count_for_at(rest, k - 1);
    }
}

/// The totals stay ascending, and just the rule of the candidate counts one more.
proof fn lemma_candidate_counts(totals: Seq<RuleTotal>, c: CandidateModel, rule: Seq<char>)
    requires
        rules_ascend(totals),
    ensures
        rules_ascend(with_candidate(totals, c)),
        forall|i: int|
            0 <= i < with_candidate(totals, c).len() ==> (#[trigger] with_candidate(totals, c)[i]).rule
                == c.rule || exists|j: int|
                0 <= j < totals.len() && (#[trigger] totals[j]).rule == with_candidate(totals, c)[i].rule,
        ({
            let (n, b) = count_for(totals, rule);
            count_for(with_candidate(totals, c), rule) == (if rule == c.rule {
                (n + 1, b + c.bytes)
            } else {
                (n, b)
            })
        }),
        (forall|i: int| 0 <= i < totals.len() ==> (#[trigger] totals[i]).count > 0) ==> (forall|i: int|
            0 <= i < with_candidate(totals, c).len() ==> (#[trigger] with_candidate(totals, c)[i]).count
                > 0),
    decreases totals.len(),
{
    let out = with_candidate(totals, c);
    if totals.len() == 0 {
        assert(out.drop_first() =~= totals);
    } else {
        let rest = totals.drop_first();
        assert forall|i: int, j: int| 0 <= i < j < rest.len() implies text_less(
            (#[trigger] rest[i]).rule,
            (#[trigger] rest[j]).rule,
        ) by {
            assert(rest[i] == totals[i + 1] && rest[j] == totals[j + 1]);
        }
        if totals[0].rule == c.rule {
            assert(out.drop_first() =~= rest);
            assert forall|i: int, j: int| 0 <= i < j < out.len() implies text_less(
                (#[trigger] out[i]).rule,
                (#[trigger] out[j]).rule,
            ) by {
                assert(out[i].rule == totals[i].rule && out[j].rule == totals[j].rule);
            }
            assert forall|i: int| 0 <= i < out.len() implies (#[trigger] out[i]).rule == c.rule
                || exists|j: int| 0 <= j < totals.len() && (#[trigger] totals[j]).rule == out[i].rule by {
                assert(totals[i].rule == out[i].rule);
            }
        } else if text_less(c.rule, totals[0].rule) {
            assert(out.drop_first() =~= totals);
            assert forall|i: int, j: int| 0 <= i < j < out.len() implies text_less(
                (#[trigger] out[i]).rule,
                (#[trigger] out[j]).rule,
            ) by {
                assert(out[j] == totals[j - 1]);
                if i > 0 {
                    assert(out[i] == totals[i - 1]);
                } else if j > 1 {
                    assert(text_less(totals[0].rule, totals[j - 1].rule));
                    lemma_text_less_transitive(c.rule, totals[0].rule, totals[j - 1].rule);
                }
            }
            assert forall|i: int| 0 <= i < out.len() implies (#[trigger] out[i]).rule == c.rule
                || exists|j: int| 0 <= j < totals.len() && (#[trigger] totals[j]).rule == out[i].rule by {
                if i > 0 {
                    assert(totals[i - 1].rule == out[i].rule);
                }
            }
            if rule == c.rule {
                assert forall|i: int| 0 <= i < totals.len() implies (#[trigger] totals[i]).rule != rule by {
                    lemma_text_less_irreflexive(rule);
                    if i > 0 && totals[i].rule == rule {
                        assert(text_less(totals[0].rule, totals[i].rule));
                        lemma_text_less_transitive(rule, totals[0].rule, rule);
                    }
                }
                lemma_count_for_none(totals, rule);
            }
        } else {
            lemma_candidate_counts(rest, c, rule);
            let tail = with_candidate(rest, c);
            assert(out.drop_first() =~= tail);
            lemma_text_less_total(c.rule, totals[0].rule);
            assert(text_less(totals[0].rule, c.rule));
            assert forall|i: int, j: int| 0 <= i < j < out.len() implies text_less(
                (#[trigger] out[i]).rule,
                (#[trigger] out[j]).rule,
            ) by {
                assert(out[j] == tail[j - 1]);
                if i > 0 {
                    assert(out[i] == tail[i - 1]);
                } else if tail[j - 1].rule != c.rule {
                    let k = choose|k: int|
                        0 <= k < rest.len() && (#[trigger] rest[k]).rule == tail[j - 1].rule;
                    assert(rest[k] == totals[k + 1]);
                    assert(text_less(totals[0].rule, totals[k + 1].rule));
                }
            }
            assert forall|i: int| 0 <= i < out.len() implies (#[trigger] out[i]).rule == c.rule
                || exists|j: int| 0 <= j < totals.len() && (#[trigger] totals[j]).rule == out[i].rule by {
                if i == 0 {
                    assert(totals[0].rule == out[0].rule);
                } else {
                    assert(out[i] == tail[i - 1]);
                    if tail[i - 1].rule != c.rule {
                        let k = choose|k: int|
                            0 <= k < rest.len() && (#[trigger] rest[k]).rule == tail[i - 1].rule;
                        assert(totals[k + 1].rule == out[i].rule);
                    }
                }
            }
            if forall|i: int| 0 <= i < totals.len() ==> (#[trigger] totals[i]).count > 0 {
                assert forall|i: int| 0 <= i < rest.len() implies (#[trigger] rest[i]).count > 0 by {
                    assert(rest[i] == totals[i + 1]);
                }
                assert forall|i: int| 0 <= i < out.len() implies (#[trigger] out[i]).count > 0 by {
                    if i > 0 {
                        assert(out[i] == tail[i - 1]);
                    } else {
                        assert(totals[0].count > 0);
                    }
                }
            }
        }
    }
}

proof fn lemma_found_by(candidates: Seq<CandidateModel>, rule: Seq<char>)
    ensures
        rules_ascend(rule_totals(candidates)),
        count_for(rule_totals(candidates), rule) == (
            found_by(candidates, rule).len(),
            bytes_of(found_by(candidates, rule)),
        ),
        forall|i: int|
            0 <= i < rule_totals(candidates).len() ==> (#[trigger] rule_totals(candidates)[i]).count > 0,
    decreases candidates.len(),
{
    reveal(Seq::filter);
    let bytes = |c: CandidateModel| c.bytes;
    if candidates.len() > 0 {
        let rest = candidates.drop_last();
        let c = candidates.last();
        lemma_found_by(rest, rule);
        lemma_candidate_counts(rule_totals(rest), c, rule);
        let before = found_by(rest, rule);
        if c.rule == rule {
            assert(found_by(candidates, rule) =~= before.push(c));
            assert(before.push(c).map_values(bytes).drop_last() =~= before.map_values(bytes));
        }
    } else {
        assert(found_by(candidates, rule) =~= Seq::<CandidateModel>::empty());
        assert(found_by(candidates, rule).map_values(bytes) =~= Seq::<nat>::empty());
    }
}

/// Each rule that found something is counted once, in ascending order of the names: how many candidates
/// it found, and how many bytes they have.
pub proof fn rules_are_counted(candidates: Seq<CandidateModel>, rule: Seq<char>, k: int)
    ensures
        rules_ascend(rule_totals(candidates)),
        0 <= k < rule_totals(candidates).len() ==> ({
            let t = rule_totals(candidates)[k];
            &&& t.count > 0
            &&& t.count == found_by(candidates, t.rule).len()
            &&& t.bytes == bytes_of(found_by(candidates, t.rule))
        }),
        found_by(candidates, rule).len() > 0 ==> exists|i: int|
            0 <= i < rule_totals(candidates).len() && (#[trigger] rule_totals(candidates)[i]).rule == rule,
{
    let totals = rule_totals(candidates);
    lemma_found_by(candidates, rule);
    if 0 <= k < totals.len() {
        lemma_found_by(candidates, totals[k].rule);
        lemma_count_for_at(totals, k);
    }
    if found_by(candidates, rule).len() > 0 {
        if forall|i: int| 0 <= i < totals.len() ==> (#[trigger] totals[i]).rule != rule {
            lemma_count_for_none(totals, rule);
        }
    }
}

/// The bytes of all candidates.
proof fn lemma_bytes_add_up(candidates: Seq<CandidateModel>)
    ensures
        total_bytes(candidates) == bytes_of(candidates),
    decreases candidates.len(),
{
    let bytes = |c: CandidateModel| c.bytes;
    if candidates.len() > 0 {
        lemma_bytes_add_up(candidates.drop_last());
        assert(candidates.map_values(bytes).drop_last() =~= candidates.drop_last().map_values(bytes));
    }
}

/// A line is written for each rule, in the order of the rules, and last one for all of them.
pub proof fn a_line_for_each_rule(candidates: Seq<CandidateModel>, k: int)
    ensures
        ({
            let lines = prune_text(candidates);
            let totals = rule_totals(candidates);
            &&& lines.len() == totals.len() + 1
            &&& 0 <= k < totals.len() ==> lines[k] == totals[k].rule + ": "@ + dec(totals[k].count)
                + " candidates, "@ + dec(totals[k].bytes) + " bytes prunable"@
            &&& lines.last() == "total"@ + ": "@ + dec(candidates.len()) + " candidates, "@ + dec(
                bytes_of(candidates),
            ) + " bytes prunable"@
        }),
        ({
            let report = prune_report(candidates)->Object_0;
            &&& report.len() == 3
            &&& report[0].0 == "by_rule"@
            &&& report[1] == ("bytes_prunable"@, JsonModel::Int(bytes_of(candidates) as int))
            &&& report[2] == ("candidates"@, JsonModel::Int(candidates.len() as int))
            &&& 0 <= k < rule_totals(candidates).len() ==> (report[0].1->Object_0)[k] == (
                rule_totals(candidates)[k].rule,
                JsonModel::Int(rule_totals(candidates)[k].count as int),
            )
            &&& (report[0].1->Object_0).len() == rule_totals(candidates).len()
        }),
{
    lemma_bytes_add_up(candidates);
}

/// A line is written for each kind, in the order of the kinds, and last one for all of them; where
/// nothing was called, one that says so.
pub proof fn a_line_for_each_kind(
    kinds: Seq<(Seq<char>, StatsModel)>,
    total: StatsModel,
    percents: Seq<Seq<char>>,
    total_percent: Seq<char>,
    k: int,
)
    ensures
        ({
            let lines = stats_text(kinds, total, percents, total_percent);
            &&& total.calls == 0 ==> lines == seq!["no squishi --json calls found in this transcript"@]
            &&& total.calls > 0 ==> lines.len() == kinds.len() + 1
            &&& total.calls > 0 && 0 <= k < kinds.len() ==> lines[k] == kinds[k].0 + ": "@ + dec(
                kinds[k].1.calls,
            ) + " calls, "@ + dec(kinds[k].1.before) + " -> "@ + dec(kinds[k].1.after) + " chars ("@
                + percents[k] + "% saved)"@
            &&& total.calls > 0 ==> lines.last() == "total"@ + ": "@ + dec(total.calls) + " calls, "@
                + dec(total.before) + " -> "@ + dec(total.after) + " chars ("@ + total_percent
                + "% saved)"@
        }),
{
}

/// What is saved is what the text got shorter by, and nothing where it did not.
pub proof fn savings_are_differences(s: StatsModel, percent: JsonModel)
    ensures
        s.after <= s.before ==> s.after + saved(s) == s.before,
        s.after > s.before ==> saved(s) == 0,
        kind_report(s, percent) == seq![
            ("calls"@, JsonModel::Int(s.calls as int)),
            ("chars_after"@, JsonModel::Int(s.after as int)),
            ("chars_before"@, JsonModel::Int(s.before as int)),
            ("chars_saved"@, JsonModel::Int(saved(s))),
            ("pct_saved"@, percent),
        ],
{
}

/// A digest is reported with all that is known of its session; what is not known is null.
pub proof fn digests_are_reported(content: Seq<char>, m: MetaModel, lines: int, before: int, after: int)
    ensures
        ({
            let report = digest_report(content, m, lines, before, after)->Object_0;
            let told = |s: Option<Seq<char>>|
                if s is Some {
                    JsonModel::Text(s->0)
                } else {
                    JsonModel::Null
                };
            &&& report.len() == 11
            &&& report[0] == ("chars_after"@, JsonModel::Int(after))
            &&& report[1] == ("chars_before"@, JsonModel::Int(before))
            &&& report[2] == ("content"@, JsonModel::Text(content))
            &&& report[3] == ("cwd"@, told(m.cwd))
            &&& report[4] == ("first_ts"@, told(m.first_ts))
            &&& report[5] == ("last_ts"@, told(m.last_ts))
            &&& report[6] == ("raw_bytes"@, JsonModel::Int(m.raw_bytes as int))
            &&& report[7] == ("session_id"@, told(m.session_id))
            &&& report[8] == ("total_lines"@, JsonModel::Int(lines))
            &&& report[9] == ("truncated"@, JsonModel::Bool(m.truncated))
            &&& report[10] == ("turn_count"@, JsonModel::Int(m.turn_count as int))
        }),
{
}

/// The savings are reported in all and for each kind, in the order of the kinds.
pub proof fn savings_are_reported(
    kinds: Seq<(Seq<char>, StatsModel)>,
    total: StatsModel,
    percents: Seq<JsonModel>,
    percent: JsonModel,
    k: int,
)
    ensures
        ({
            let report = stats_report(kinds, total, percents, percent)->Object_0;
            let by_kind = report[0].1->Object_0;
            &&& report.len() == 6
            &&& report[0].0 == "by_kind"@
            &&& by_kind.len() == kinds.len()
            &&& 0 <= k < kinds.len() ==> by_kind[k] == (
                kinds[k].0,
                JsonModel::Object(kind_report(kinds[k].1, percents[k])),
            )
            &&& report.skip(1) == kind_report(total, percent)
        }),
{
    let report = stats_report(kinds, total, percents, percent)->Object_0;
    assert(report.skip(1) =~= kind_report(total, percent));
}

/// A TOON form is worth having where it takes fewer bytes than the text and than the compact JSON. It is
/// reported with its size and that of the text.
pub proof fn forms_are_reported(text: Seq<char>, value: JsonModel, source: Seq<char>, before: int)
    ensures
        toon_is_shorter(text, value) <==> byte_len(toon_text(value)) < byte_len(text) && byte_len(
            toon_text(value),
        ) < byte_len(json_text(value)),
        form_report(text, source, before) == JsonModel::Object(
            seq![
                ("chars_after"@, JsonModel::Int(byte_len(text) as int)),
                ("chars_before"@, JsonModel::Int(before)),
                ("compressed"@, JsonModel::Text(text)),
                ("source"@, JsonModel::Text(source)),
            ],
        ),
        status_label(Status::Pass) == "PASS"@,
        status_label(Status::Warn) == "WARN"@,
        status_label(Status::Fail) == "FAIL"@,
        status_label(Status::Skipped) == "SKIP"@,
{
}

} // verus!
