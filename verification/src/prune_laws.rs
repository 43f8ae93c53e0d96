//! What the rules of [`crate::session_prune`] find, stated over the items of a session.
//!
//! Each law says which items a rule finds and what it says of each: the candidates stand for items at
//! distinct places, and an item is among them just where it is what the rule looks for.
use crate::json::{json_parse, JsonModel};
use crate::order::{
    arranged, ascending_below, distinct_below, stable_order, stable_order_sorts,
};
use crate::session_prune::{
    all_but_last, all_candidates, block_items, candidate_for, covered_write, covered_writes,
    errors_in, latest_read_candidates, launch_candidates, launches_in, line_items, line_of, mentions,
    message_blocks, old_large_outputs, path_read, pruned_items, read_after, read_paths,
    reads_of, redundant_error_candidates, repeated_error, repeated_errors, result_of,
    results_by_line, same_error, session_items, stale_reads, stale_reads_of,
    use_of, uses_by_line, CandidateModel, ItemModel, ResultModel, UseModel,
};
use crate::text::{byte_len, contains_text, dec, holds, trim};
use vstd::prelude::*;

verus! {

/// The candidates stand for the items at the places: all that are looked for, each once.
pub open spec fn found_at(
    candidates: Seq<CandidateModel>,
    places: Seq<int>,
    total: nat,
    wanted: spec_fn(int) -> bool,
    said: spec_fn(int) -> CandidateModel,
) -> bool {
    &&& candidates.len() == places.len()
    &&& distinct_below(places, total as int)
    &&& forall|j: int| 0 <= j < places.len() ==> #[trigger] candidates[j] == said(places[j])
    &&& forall|a: int| 0 <= a < total ==> (#[trigger] places.contains(a) <==> wanted(a))
}

/// Item `b` comes after item `a`: on a later line, or later on the same line.
pub open spec fn comes_after(items: Seq<ItemModel>, a: int, b: int) -> bool {
    line_of(items[a]) < line_of(items[b]) || line_of(items[a]) == line_of(items[b]) && a < b
}

// ---------------------------------------------------------------------------
// Places
// ---------------------------------------------------------------------------

/// The places below `n` of the items that are wanted.
spec fn places_where(wanted: spec_fn(int) -> bool, n: nat) -> Seq<int>
    decreases n,
{
    if n == 0 {
        seq![]
    } else {
        let before = places_where(wanted, (n - 1) as nat);
        if wanted(n - 1) {
            before.push(n - 1)
        } else {
            before
        }
    }
}

proof fn lemma_places(wanted: spec_fn(int) -> bool, n: nat)
    ensures
        ascending_below(places_where(wanted, n), n as int),
        forall|a: int| #[trigger]
            places_where(wanted, n).contains(a) <==> 0 <= a < n && wanted(a),
    decreases n,
{
    let out = places_where(wanted, n);
    if n > 0 {
        let before = places_where(wanted, (n - 1) as nat);
        lemma_places(wanted, (n - 1) as nat);
        assert forall|i: int, j: int| 0 <= i < j < out.len() implies #[trigger] out[i]
            < #[trigger] out[j] by {
            assert(out[i] == before[i]);
            if j < before.len() {
                assert(out[j] == before[j]);
            }
        }
        assert forall|i: int| 0 <= i < out.len() implies 0 <= #[trigger] out[i] < n by {
            if i < before.len() {
                assert(out[i] == before[i]);
            }
        }
        assert forall|a: int| #[trigger] out.contains(a) <==> 0 <= a < n && wanted(a) by {
            assert(before.contains(a) <==> 0 <= a < n - 1 && wanted(a));
            if before.contains(a) {
                let k = choose|k: int| 0 <= k < before.len() && before[k] == a;
                assert(out[k] == a);
            }
            if out.contains(a) {
                let k = choose|k: int| 0 <= k < out.len() && out[k] == a;
                if k < before.len() {
                    assert(before[k] == a);
                }
            }
            if wanted(n - 1) {
                assert(out[out.len() - 1] == n - 1);
            }
        }
    }
}

/// The places in the order of their lines.
spec fn by_line(items: Seq<ItemModel>, places: Seq<int>) -> Seq<int> {
    arranged(places, stable_order(Seq::new(places.len(), |i: int| line_of(items[places[i]]))))
}

proof fn lemma_by_line(items: Seq<ItemModel>, places: Seq<int>)
    requires
        ascending_below(places, items.len() as int),
    ensures
        by_line(items, places).len() == places.len(),
        distinct_below(by_line(items, places), items.len() as int),
        forall|a: int| #[trigger] by_line(items, places).contains(a) <==> places.contains(a),
        forall|i: int, j: int|
            0 <= i < j < places.len() ==> comes_after(
                items,
                #[trigger] by_line(items, places)[i],
                #[trigger] by_line(items, places)[j],
            ),
{
    let keys = Seq::new(places.len(), |i: int| line_of(items[places[i]]));
    let order = stable_order(keys);
    let out = by_line(items, places);
    stable_order_sorts(keys);
    assert forall|i: int, j: int| 0 <= i < j < out.len() implies comes_after(
        items,
        #[trigger] out[i],
        #[trigger] out[j],
    ) && out[i] != out[j] by {
        let a = order[i];
        let b = order[j];
        assert(out[i] == places[a] && out[j] == places[b]);
        assert(keys[a] == line_of(items[out[i]]) && keys[b] == line_of(items[out[j]]));
        if a < b {
            assert(places[a] < places[b]);
        } else {
            assert(places[b] < places[a]);
        }
    }
    assert forall|i: int| 0 <= i < out.len() implies 0 <= #[trigger] out[i] < items.len() by {
        assert(out[i] == places[order[i]]);
    }
    assert forall|a: int| #[trigger] out.contains(a) <==> places.contains(a) by {
        if out.contains(a) {
            let k = choose|k: int| 0 <= k < out.len() && out[k] == a;
            assert(places[order[k]] == a);
        }
        if places.contains(a) {
            let k = choose|k: int| 0 <= k < places.len() && places[k] == a;
            assert(order.contains(k));
            let i = choose|i: int| 0 <= i < order.len() && order[i] == k;
            assert(out[i] == a);
        }
    }
}

spec fn results_at(items: Seq<ItemModel>, places: Seq<int>) -> Seq<ResultModel> {
    Seq::new(places.len(), |i: int| items[places[i]]->Result_0)
}

spec fn uses_at(items: Seq<ItemModel>, places: Seq<int>) -> Seq<UseModel> {
    Seq::new(places.len(), |i: int| items[places[i]]->Use_0)
}

proof fn lemma_results_by_line(items: Seq<ItemModel>, places: Seq<int>)
    requires
        ascending_below(places, items.len() as int),
        forall|i: int| 0 <= i < places.len() ==> items[#[trigger] places[i]] is Result,
    ensures
        results_by_line(results_at(items, places)) == results_at(items, by_line(items, places)),
{
    let keys = Seq::new(places.len(), |i: int| line_of(items[places[i]]));
    let rs = results_at(items, places);
    let other = Seq::new(rs.len(), |i: int| rs[i].line);
    assert forall|i: int| 0 <= i < places.len() implies keys[i] == other[i] by {
        assert(items[places[i]] is Result);
    }
    assert(keys =~= other);
    stable_order_sorts(keys);
    assert(results_by_line(rs) =~= results_at(items, by_line(items, places)));
}

proof fn lemma_uses_by_line(items: Seq<ItemModel>, places: Seq<int>)
    requires
        ascending_below(places, items.len() as int),
        forall|i: int| 0 <= i < places.len() ==> items[#[trigger] places[i]] is Use,
    ensures
        uses_by_line(uses_at(items, places)) == uses_at(items, by_line(items, places)),
{
    let keys = Seq::new(places.len(), |i: int| line_of(items[places[i]]));
    let us = uses_at(items, places);
    let other = Seq::new(us.len(), |i: int| us[i].line);
    assert forall|i: int| 0 <= i < places.len() implies keys[i] == other[i] by {
        assert(items[places[i]] is Use);
    }
    assert(keys =~= other);
    stable_order_sorts(keys);
    assert(uses_by_line(us) =~= uses_at(items, by_line(items, places)));
}

// ---------------------------------------------------------------------------
// Calls and results
// ---------------------------------------------------------------------------

/// The result of a call is the last result with its id, and a call with an id is the last one with it.
pub proof fn the_last_with_an_id_counts(items: Seq<ItemModel>, id: Seq<char>, k: int)
    ensures
        result_of(items, id) is None ==> (0 <= k < items.len() ==> !(items[k] matches ItemModel::Result(r)
            && r.id == id)),
        result_of(items, id) matches Some(r) ==> exists|i: int|
            0 <= i < items.len() && #[trigger] items[i] == ItemModel::Result(r) && r.id == id && (i < k
                < items.len() ==> !(items[k] matches ItemModel::Result(x) && x.id == id)),
        use_of(items, id) is None ==> (0 <= k < items.len() ==> !(items[k] matches ItemModel::Use(u)
            && u.id == id)),
        use_of(items, id) matches Some(u) ==> exists|i: int|
            0 <= i < items.len() && #[trigger] items[i] == ItemModel::Use(u) && u.id == id && (i < k
                < items.len() ==> !(items[k] matches ItemModel::Use(x) && x.id == id)),
    decreases items.len(),
{
    if items.len() > 0 {
        let before = items.drop_last();
        let n = items.len() - 1;
        the_last_with_an_id_counts(before, id, k);
        if 0 <= k < n {
            assert(before[k] == items[k]);
        }
        match result_of(items, id) {
            Some(r) => {
                if items.last() == ItemModel::Result(r) {
                    assert(items[n] == ItemModel::Result(r));
                } else {
                    let i = choose|i: int|
                        0 <= i < before.len() && #[trigger] before[i] == ItemModel::Result(r) && r.id
                            == id && (i < k < before.len() ==> !(before[k] matches ItemModel::Result(x)
                            && x.id == id));
                    assert(items[i] == ItemModel::Result(r));
                }
            },
            None => {},
        }
        match use_of(items, id) {
            Some(u) => {
                if items.last() == ItemModel::Use(u) {
                    assert(items[n] == ItemModel::Use(u));
                } else {
                    let i = choose|i: int|
                        0 <= i < before.len() && #[trigger] before[i] == ItemModel::Use(u) && u.id == id
                            && (i < k < before.len() ==> !(before[k] matches ItemModel::Use(x) && x.id
                            == id));
                    assert(items[i] == ItemModel::Use(u));
                }
            },
            None => {},
        }
    }
}

/// The item is a call of the tool `Read` with the path.
pub open spec fn reads(item: ItemModel, path: Seq<char>) -> bool {
    item matches ItemModel::Use(u) && u.name == "Read"@ && u.path == Some(path)
}

// ---------------------------------------------------------------------------
// Reads
// ---------------------------------------------------------------------------

/// The item at `a` reads a path that an item after it reads again, and it has a result.
pub open spec fn is_stale_read(items: Seq<ItemModel>, a: int) -> bool {
    items[a] matches ItemModel::Use(u) && result_of(items, u.id) is Some && exists|
        path: Seq<char>,
        b: int,
    |
        0 <= b < items.len() && reads(items[a], path) && #[trigger] reads(items[b], path) && comes_after(
            items,
            a,
            b,
        )
}

pub open spec fn stale_read_said(items: Seq<ItemModel>, a: int) -> CandidateModel {
    let u = items[a]->Use_0;
    let r = result_of(items, u.id)->0;
    CandidateModel {
        line: r.line,
        id: u.id,
        rule: "dedupe_latest_read"@,
        reason: "older Read of "@ + u.path->0 + " superseded by a later Read of the same path"@,
        bytes: byte_len(r.content),
    }
}

/// The places of the uses that have a result.
spec fn with_result(items: Seq<ItemModel>, places: Seq<int>) -> Seq<int>
    decreases places.len(),
{
    if places.len() == 0 {
        seq![]
    } else {
        let before = with_result(items, places.drop_last());
        if result_of(items, items[places.last()]->Use_0.id) is Some {
            before.push(places.last())
        } else {
            before
        }
    }
}

proof fn lemma_with_result(items: Seq<ItemModel>, places: Seq<int>)
    ensures
        forall|a: int| #[trigger]
            with_result(items, places).contains(a) <==> places.contains(a) && result_of(
                items,
                items[a]->Use_0.id,
            ) is Some,
        distinct_below(places, items.len() as int) ==> distinct_below(
            with_result(items, places),
            items.len() as int,
        ),
    decreases places.len(),
{
    let out = with_result(items, places);
    if places.len() > 0 {
        let rest = places.drop_last();
        let before = with_result(items, rest);
        lemma_with_result(items, rest);
        assert forall|a: int| #[trigger] out.contains(a) <==> places.contains(a) && result_of(
            items,
            items[a]->Use_0.id,
        ) is Some by {
            assert(before.contains(a) <==> rest.contains(a) && result_of(
                items,
                items[a]->Use_0.id,
            ) is Some);
            if before.contains(a) {
                let k = choose|k: int| 0 <= k < before.len() && before[k] == a;
                assert(out[k] == a);
                let l = choose|l: int| 0 <= l < rest.len() && rest[l] == a;
                assert(places[l] == a);
            }
            if out.contains(a) {
                let k = choose|k: int| 0 <= k < out.len() && out[k] == a;
                if k < before.len() {
                    assert(before[k] == a);
                } else {
                    assert(places[places.len() - 1] == a);
                }
            }
            if places.contains(a) {
                let l = choose|l: int| 0 <= l < places.len() && places[l] == a;
                if l < rest.len() {
                    assert(rest[l] == a);
                } else if out.len() > before.len() {
                    assert(out[out.len() - 1] == a);
                }
            }
        }
        if distinct_below(places, items.len() as int) {
            assert forall|i: int| 0 <= i < rest.len() implies 0 <= #[trigger] rest[i] < items.len() by {
                assert(rest[i] == places[i]);
            }
            assert forall|i: int, j: int| 0 <= i < j < rest.len() implies #[trigger] rest[i]
                != #[trigger] rest[j] by {
                assert(rest[i] == places[i] && rest[j] == places[j]);
            }
            assert forall|i: int| 0 <= i < out.len() implies 0 <= #[trigger] out[i] < items.len() by {
                if i < before.len() {
                    assert(out[i] == before[i]);
                } else {
                    assert(places[places.len() - 1] == out[i]);
                }
            }
            assert forall|i: int, j: int| 0 <= i < j < out.len() implies #[trigger] out[i]
                != #[trigger] out[j] by {
                assert(out[i] == before[i]);
                if j < before.len() {
                    assert(out[j] == before[j]);
                } else {
                    assert(before.contains(out[i]));
                    let l = choose|l: int| 0 <= l < rest.len() && rest[l] == out[i];
                    assert(places[l] == out[i]);
                    assert(places[places.len() - 1] == out[j]);
                }
            }
        }
    }
}

proof fn lemma_stale_reads(items: Seq<ItemModel>, path: Seq<char>, places: Seq<int>)
    requires
        forall|i: int|
            0 <= i < places.len() ==> 0 <= #[trigger] places[i] < items.len() && reads(
                items[places[i]],
                path,
            ),
    ensures
        stale_reads(items, path, uses_at(items, places)).len() == with_result(items, places).len(),
        forall|j: int|
            0 <= j < with_result(items, places).len() ==> #[trigger] stale_reads(
                items,
                path,
                uses_at(items, places),
            )[j] == stale_read_said(items, with_result(items, places)[j]),
    decreases places.len(),
{
    if places.len() > 0 {
        let rest = places.drop_last();
        assert forall|i: int| 0 <= i < rest.len() implies 0 <= #[trigger] rest[i] < items.len()
            && reads(items[rest[i]], path) by {
            assert(rest[i] == places[i]);
        }
        lemma_stale_reads(items, path, rest);
        let us = uses_at(items, places);
        assert(us.drop_last() =~= uses_at(items, rest));
        let a = places[places.len() - 1];
        assert(reads(items[a], path));
        assert(us.last() == items[a]->Use_0);
        let out = stale_reads(items, path, us);
        let before = stale_reads(items, path, uses_at(items, rest));
        assert forall|j: int| 0 <= j < with_result(items, places).len() implies #[trigger] out[j]
            == stale_read_said(items, with_result(items, places)[j]) by {
            if j < before.len() {
                assert(out[j] == before[j]);
            }
        }
    }
}

/// The places of the reads of a path but for the last of them.
spec fn older_reads(items: Seq<ItemModel>, path: Seq<char>) -> Seq<int> {
    all_but_last(
        by_line(items, places_where(|i: int| reads(items[i], path), items.len())),
    )
}

proof fn lemma_reads_of(items: Seq<ItemModel>, path: Seq<char>, n: nat)
    requires
        n <= items.len(),
    ensures
        reads_of(items.take(n as int), path) == uses_at(
            items,
            places_where(|i: int| reads(items[i], path), n),
        ),
    decreases n,
{
    let wanted = |i: int| reads(items[i], path);
    let part = items.take(n as int);
    if n > 0 {
        lemma_reads_of(items, path, (n - 1) as nat);
        assert(part.drop_last() =~= items.take(n - 1));
        assert(part.last() == items[n - 1]);
        assert(path_read(items[n - 1]) == Some(path) <==> wanted(n - 1));
    }
    assert(reads_of(part, path) =~= uses_at(items, places_where(wanted, n)));
}

proof fn lemma_older_reads(items: Seq<ItemModel>, path: Seq<char>)
    ensures
        distinct_below(older_reads(items, path), items.len() as int),
        forall|a: int| #[trigger]
            older_reads(items, path).contains(a) <==> 0 <= a < items.len() && reads(items[a], path)
                && exists|b: int|
                0 <= b < items.len() && #[trigger] reads(items[b], path) && comes_after(items, a, b),
        all_but_last(uses_by_line(reads_of(items, path))) == uses_at(items, older_reads(items, path)),
{
    let wanted = |i: int| reads(items[i], path);
    let places = places_where(wanted, items.len());
    let sorted = by_line(items, places);
    let older = older_reads(items, path);
    lemma_places(wanted, items.len());
    lemma_by_line(items, places);
    lemma_reads_of(items, path, items.len());
    assert(items.take(items.len() as int) =~= items);
    assert forall|i: int| 0 <= i < places.len() implies items[#[trigger] places[i]] is Use by {
        assert(places.contains(places[i]));
    }
    lemma_uses_by_line(items, places);
    assert(all_but_last(uses_at(items, sorted)) =~= uses_at(items, older));
    assert forall|i: int| 0 <= i < older.len() implies 0 <= #[trigger] older[i] < items.len() by {
        assert(older[i] == sorted[i]);
    }
    assert forall|i: int, j: int| 0 <= i < j < older.len() implies #[trigger] older[i]
        != #[trigger] older[j] by {
        assert(older[i] == sorted[i] && older[j] == sorted[j]);
    }
    assert forall|a: int| #[trigger] older.contains(a) <==> 0 <= a < items.len() && reads(
        items[a],
        path,
    ) && exists|b: int|
        0 <= b < items.len() && #[trigger] reads(items[b], path) && comes_after(items, a, b) by {
        if older.contains(a) {
            let k = choose|k: int| 0 <= k < older.len() && older[k] == a;
            let b = sorted[sorted.len() - 1];
            assert(sorted[k] == a);
            assert(sorted.contains(a) && sorted.contains(b));
            assert(places.contains(a) && places.contains(b));
            assert(comes_after(items, sorted[k], sorted[sorted.len() - 1]));
            assert(reads(items[b], path));
        }
        if 0 <= a < items.len() && reads(items[a], path) && exists|b: int|
            0 <= b < items.len() && #[trigger] reads(items[b], path) && comes_after(items, a, b) {
            let b = choose|b: int|
                0 <= b < items.len() && #[trigger] reads(items[b], path) && comes_after(items, a, b);
            assert(places.contains(a) && places.contains(b));
            assert(sorted.contains(a) && sorted.contains(b));
            let k = choose|k: int| 0 <= k < sorted.len() && sorted[k] == a;
            let l = choose|l: int| 0 <= l < sorted.len() && sorted[l] == b;
            if k == sorted.len() - 1 {
                if l < k {
                    assert(comes_after(items, sorted[l], sorted[k]));
                }
            } else {
                assert(older[k] == a);
            }
        }
    }
}

/// The places that the candidates of some paths stand for.
spec fn stale_places(items: Seq<ItemModel>, paths: Seq<Seq<char>>) -> Seq<int>
    decreases paths.len(),
{
    if paths.len() == 0 {
        seq![]
    } else {
        stale_places(items, paths.drop_last()) + with_result(
            items,
            older_reads(items, paths.last()),
        )
    }
}

proof fn lemma_stale_places(items: Seq<ItemModel>, paths: Seq<Seq<char>>)
    requires
        forall|i: int, j: int| 0 <= i < j < paths.len() ==> #[trigger] paths[i] != #[trigger] paths[j],
    ensures
        stale_reads_of(items, paths).len() == stale_places(items, paths).len(),
        distinct_below(stale_places(items, paths), items.len() as int),
        forall|j: int|
            0 <= j < stale_places(items, paths).len() ==> #[trigger] stale_reads_of(items, paths)[j]
                == stale_read_said(items, stale_places(items, paths)[j]),
        forall|a: int| #[trigger]
            stale_places(items, paths).contains(a) <==> 0 <= a < items.len() && is_stale_read(items, a)
                && holds(paths, items[a]->Use_0.path->0),
    decreases paths.len(),
{
    let out = stale_places(items, paths);
    if paths.len() > 0 {
        let rest = paths.drop_last();
        let path = paths[paths.len() - 1];
        let before = stale_places(items, rest);
        let older = older_reads(items, path);
        let here = with_result(items, older);
        assert forall|i: int, j: int| 0 <= i < j < rest.len() implies #[trigger] rest[i]
            != #[trigger] rest[j] by {
            assert(rest[i] == paths[i] && rest[j] == paths[j]);
        }
        lemma_stale_places(items, rest);
        lemma_older_reads(items, path);
        lemma_with_result(items, older);
        assert forall|i: int| 0 <= i < older.len() implies 0 <= #[trigger] older[i] < items.len()
            && reads(items[older[i]], path) by {
            assert(older.contains(older[i]));
        }
        lemma_stale_reads(items, path, older);
        assert(!holds(rest, path)) by {
            if holds(rest, path) {
                let k = choose|k: int| 0 <= k < rest.len() && #[trigger] rest[k] == path;
                assert(paths[k] == paths[paths.len() - 1]);
            }
        }
        assert forall|p: Seq<char>| holds(paths, p) <==> #[trigger] holds(rest, p) || p == path by {
            if holds(paths, p) {
                let k = choose|k: int| 0 <= k < paths.len() && #[trigger] paths[k] == p;
                if k < rest.len() {
                    assert(rest[k] == p);
                }
            }
            if holds(rest, p) {
                let k = choose|k: int| 0 <= k < rest.len() && #[trigger] rest[k] == p;
                assert(paths[k] == p);
            }
            assert(paths[paths.len() - 1] == path);
        }
        assert forall|a: int| #[trigger] here.contains(a) <==> 0 <= a < items.len() && is_stale_read(
            items,
            a,
        ) && items[a]->Use_0.path->0 == path by {
            assert(older.contains(a) <==> 0 <= a < items.len() && reads(items[a], path) && exists|
                b: int,
            |
                0 <= b < items.len() && #[trigger] reads(items[b], path) && comes_after(items, a, b));
            if here.contains(a) {
                let b = choose|b: int|
                    0 <= b < items.len() && #[trigger] reads(items[b], path) && comes_after(items, a, b);
                assert(reads(items[a], path) && reads(items[b], path));
            }
            if 0 <= a < items.len() && is_stale_read(items, a) && items[a]->Use_0.path->0 == path {
                let (p, b) = choose|p: Seq<char>, b: int|
                    0 <= b < items.len() && reads(items[a], p) && #[trigger] reads(items[b], p)
                        && comes_after(items, a, b);
                assert(p == path);
                assert(reads(items[b], path));
            }
        }
        assert forall|a: int| #[trigger] out.contains(a) <==> before.contains(a) || here.contains(a) by {
            if out.contains(a) {
                let k = choose|k: int| 0 <= k < out.len() && out[k] == a;
                if k < before.len() {
                    assert(before[k] == a);
                } else {
                    assert(here[k - before.len()] == a);
                }
            }
            if before.contains(a) {
                let k = choose|k: int| 0 <= k < before.len() && before[k] == a;
                assert(out[k] == a);
            }
            if here.contains(a) {
                let k = choose|k: int| 0 <= k < here.len() && here[k] == a;
                assert(out[before.len() + k] == a);
            }
        }
        assert forall|a: int| #[trigger] out.contains(a) <==> 0 <= a < items.len() && is_stale_read(
            items,
            a,
        ) && holds(paths, items[a]->Use_0.path->0) by {
            assert(before.contains(a) <==> 0 <= a < items.len() && is_stale_read(items, a) && holds(
                rest,
                items[a]->Use_0.path->0,
            ));
            assert(here.contains(a) <==> 0 <= a < items.len() && is_stale_read(items, a)
                && items[a]->Use_0.path->0 == path);
            let p = items[a]->Use_0.path->0;
            assert(holds(rest, p) || !holds(rest, p));
        }
        assert forall|i: int| 0 <= i < out.len() implies 0 <= #[trigger] out[i] < items.len() by {
            assert(out.contains(out[i]));
        }
        assert forall|i: int, j: int| 0 <= i < j < out.len() implies #[trigger] out[i]
            != #[trigger] out[j] by {
            if j < before.len() {
                assert(out[i] == before[i] && out[j] == before[j]);
            } else if i >= before.len() {
                assert(out[i] == here[i - before.len()] && out[j] == here[j - before.len()]);
            } else {
                assert(out[i] == before[i] && out[j] == here[j - before.len()]);
                assert(before.contains(out[i]) && here.contains(out[j]));
            }
        }
        let cs = stale_reads_of(items, paths);
        assert forall|j: int| 0 <= j < out.len() implies #[trigger] cs[j] == stale_read_said(
            items,
            out[j],
        ) by {
            if j < before.len() {
                assert(out[j] == before[j]);
                assert(cs[j] == stale_reads_of(items, rest)[j]);
            } else {
                assert(out[j] == here[j - before.len()]);
                assert(cs[j] == stale_reads(items, path, uses_at(items, older))[j - before.len()]);
            }
        }
    }
}

proof fn lemma_read_paths(items: Seq<ItemModel>)
    ensures
        forall|i: int, j: int|
            0 <= i < j < read_paths(items).len() ==> #[trigger] read_paths(items)[i]
                != #[trigger] read_paths(items)[j],
        forall|a: int, p: Seq<char>|
            0 <= a < items.len() && #[trigger] reads(items[a], p) ==> holds(read_paths(items), p),
    decreases items.len(),
{
    if items.len() > 0 {
        let rest = items.drop_last();
        let before = read_paths(rest);
        let out = read_paths(items);
        lemma_read_paths(rest);
        assert forall|i: int, j: int| 0 <= i < j < out.len() implies #[trigger] out[i]
            != #[trigger] out[j] by {
            assert(out[i] == before[i]);
            if j < before.len() {
                assert(out[j] == before[j]);
            }
        }
        assert forall|a: int, p: Seq<char>|
            0 <= a < items.len() && #[trigger] reads(items[a], p) implies holds(out, p) by {
            if a < rest.len() {
                assert(rest[a] == items[a]);
                assert(reads(rest[a], p));
                assert(holds(before, p));
            } else {
                assert(path_read(items.last()) == Some(p));
            }
            if holds(before, p) {
                let k = choose|k: int| 0 <= k < before.len() && #[trigger] before[k] == p;
                assert(out[k] == p);
            } else {
                assert(out[out.len() - 1] == p);
            }
        }
    }
}

/// The candidates of the first rule are the results of just those calls of `Read` after which `Read` is
/// called with the same path again.
pub proof fn older_reads_are_found(items: Seq<ItemModel>) -> (places: Seq<int>)
    ensures
        found_at(
            latest_read_candidates(items),
            places,
            items.len(),
            |a: int| is_stale_read(items, a),
            |a: int| stale_read_said(items, a),
        ),
{
    let paths = read_paths(items);
    lemma_read_paths(items);
    lemma_stale_places(items, paths);
    let places = stale_places(items, paths);
    let wanted = |a: int| is_stale_read(items, a);
    let said = |a: int| stale_read_said(items, a);
    let cs = latest_read_candidates(items);
    assert forall|a: int| 0 <= a < items.len() implies (#[trigger] places.contains(a) <==> wanted(a)) by {
        if is_stale_read(items, a) {
            let (p, b) = choose|p: Seq<char>, b: int|
                0 <= b < items.len() && reads(items[a], p) && #[trigger] reads(items[b], p)
                    && comes_after(items, a, b);
            assert(reads(items[a], p));
            assert(holds(paths, p));
            assert(items[a]->Use_0.path->0 == p);
        }
    }
    assert(found_at(cs, places, items.len(), wanted, said));
    places
}

/// Each candidate of the first rule is the result of a call of `Read` with some path, and another call of
/// `Read` with that path comes later, after which none comes. Where the ids of calls differ, the result of
/// that one is no candidate: see [`last_reads_stay`].
pub proof fn older_reads_have_a_newest(items: Seq<ItemModel>, j: int) -> (r: (int, int, Seq<char>))
    requires
        0 <= j < latest_read_candidates(items).len(),
    ensures
        ({
            let (old, newest, path) = r;
            &&& 0 <= old < items.len()
            &&& 0 <= newest < items.len()
            &&& old != newest
            &&& reads(items[old], path)
            &&& reads(items[newest], path)
            &&& line_of(items[old]) <= line_of(items[newest])
            &&& latest_read_candidates(items)[j].id == items[old]->Use_0.id
            &&& latest_read_candidates(items)[j].rule == "dedupe_latest_read"@
            &&& forall|c: int|
                0 <= c < items.len() && #[trigger] reads(items[c], path) ==> !comes_after(
                    items,
                    newest,
                    c,
                )
        }),
{
    let found = older_reads_are_found(items);
    let wanted = |a: int| is_stale_read(items, a);
    let said = |a: int| stale_read_said(items, a);
    let cs = latest_read_candidates(items);
    let a = found[j];
    assert(cs[j] == said(found[j]));
    assert(found.contains(a));
    assert(wanted(a));
    let (path, b) = choose|p: Seq<char>, b: int|
        0 <= b < items.len() && reads(items[a], p) && #[trigger] reads(items[b], p) && comes_after(
            items,
            a,
            b,
        );
    let read = |i: int| reads(items[i], path);
    let places = places_where(read, items.len());
    let sorted = by_line(items, places);
    lemma_places(read, items.len());
    lemma_by_line(items, places);
    assert(read(a) && read(b));
    assert(places.contains(a) && places.contains(b));
    assert(sorted.contains(a) && sorted.contains(b));
    let last = sorted.len() - 1;
    let newest = sorted[last];
    assert(sorted.contains(newest));
    assert(places.contains(newest));
    assert(read(newest));
    let k = choose|k: int| 0 <= k < sorted.len() && sorted[k] == a;
    let l = choose|l: int| 0 <= l < sorted.len() && sorted[l] == b;
    if k == last {
        assert(comes_after(items, sorted[l], sorted[k]));
    }
    assert(comes_after(items, sorted[k], sorted[last]));
    assert forall|c: int| 0 <= c < items.len() && #[trigger] reads(items[c], path) implies !comes_after(
        items,
        newest,
        c,
    ) by {
        assert(read(c));
        assert(places.contains(c));
        assert(sorted.contains(c));
        let m = choose|m: int| 0 <= m < sorted.len() && sorted[m] == c;
        if m < last {
            assert(comes_after(items, sorted[m], sorted[last]));
        }
    }
    (a, newest, path)
}

/// A session in which no path is read twice has no candidate of the first rule.
pub proof fn paths_read_once_stay(items: Seq<ItemModel>)
    requires
        forall|a: int, b: int, path: Seq<char>|
            0 <= a < items.len() && 0 <= b < items.len() && #[trigger] reads(items[a], path)
                && #[trigger] reads(items[b], path) ==> a == b,
    ensures
        latest_read_candidates(items).len() == 0,
{
    let places = older_reads_are_found(items);
    let wanted = |a: int| is_stale_read(items, a);
    if places.len() > 0 {
        let a = places[0];
        assert(places.contains(a));
        assert(wanted(a));
        let (p, b) = choose|p: Seq<char>, b: int|
            0 <= b < items.len() && reads(items[a], p) && #[trigger] reads(items[b], p)
                && comes_after(items, a, b);
        assert(reads(items[a], p) && reads(items[b], p));
    }
}

/// The last read of a path keeps its result: only a read with the same id can give it up.
pub proof fn last_reads_stay(items: Seq<ItemModel>, b: int, path: Seq<char>, j: int)
    requires
        0 <= b < items.len(),
        reads(items[b], path),
        forall|a: int|
            0 <= a < items.len() && #[trigger] reads(items[a], path) ==> !comes_after(items, b, a),
        forall|a: int|
            0 <= a < items.len() && a != b && (#[trigger] items[a]) is Use ==> items[a]->Use_0.id
                != items[b]->Use_0.id,
        0 <= j < latest_read_candidates(items).len(),
    ensures
        latest_read_candidates(items)[j].id != items[b]->Use_0.id,
{
    let places = older_reads_are_found(items);
    let wanted = |a: int| is_stale_read(items, a);
    let said = |a: int| stale_read_said(items, a);
    let cs = latest_read_candidates(items);
    let a = places[j];
    assert(cs[j] == said(places[j]));
    assert(places.contains(a));
    assert(wanted(a));
    if a == b {
        let (p, k) = choose|p: Seq<char>, k: int|
            0 <= k < items.len() && reads(items[a], p) && #[trigger] reads(items[k], p) && comes_after(
                items,
                a,
                k,
            );
        assert(p == path);
        assert(reads(items[k], path));
    } else {
        assert(items[a] is Use);
    }
}

// ---------------------------------------------------------------------------
// Writes
// ---------------------------------------------------------------------------

/// The item at `a` writes or edits a path that is read on a later line, and it has a result.
pub open spec fn is_covered_write(items: Seq<ItemModel>, a: int) -> bool {
    items[a] matches ItemModel::Use(u) && (u.name == "Write"@ || u.name == "Edit"@) && result_of(
        items,
        u.id,
    ) is Some && exists|path: Seq<char>, b: int|
        0 <= b < items.len() && u.path == Some(path) && #[trigger] reads(items[b], path) && u.line
            < line_of(items[b])
}

pub open spec fn covered_write_said(items: Seq<ItemModel>, a: int) -> CandidateModel {
    let u = items[a]->Use_0;
    let r = result_of(items, u.id)->0;
    CandidateModel {
        line: r.line,
        id: u.id,
        rule: "supersede_write_by_read"@,
        reason: u.name + " of "@ + u.path->0 + " verified by a later Read"@,
        bytes: byte_len(r.content),
    }
}

proof fn lemma_covered_write(items: Seq<ItemModel>, a: int)
    requires
        0 <= a < items.len(),
    ensures
        covered_write(items, items[a]) == (if is_covered_write(items, a) {
            Some(covered_write_said(items, a))
        } else {
            None
        }),
{
    match items[a] {
        ItemModel::Use(u) => {
            if is_covered_write(items, a) {
                let (p, b) = choose|p: Seq<char>, b: int|
                    0 <= b < items.len() && u.path == Some(p) && #[trigger] reads(items[b], p) && u.line
                        < line_of(items[b]);
                assert(path_read(items[b]) == Some(p));
                assert(read_after(items, p, u.line));
            }
            if covered_write(items, items[a]) is Some {
                let p = u.path->0;
                let b = choose|b: int|
                    0 <= b < items.len() && path_read(#[trigger] items[b]) == Some(p)
                        && items[b]->Use_0.line > u.line;
                assert(reads(items[b], p));
            }
        },
        ItemModel::Result(_) => {},
    }
}

proof fn lemma_covered_writes_at(items: Seq<ItemModel>, n: nat)
    requires
        n <= items.len(),
    ensures
        covered_writes(items, items.take(n as int)) == places_where(
            |a: int| is_covered_write(items, a),
            n,
        ).map_values(|a: int| covered_write_said(items, a)),
    decreases n,
{
    let wanted = |a: int| is_covered_write(items, a);
    let said = |a: int| covered_write_said(items, a);
    let part = items.take(n as int);
    if n > 0 {
        lemma_covered_writes_at(items, (n - 1) as nat);
        lemma_covered_write(items, n - 1);
        assert(part.drop_last() =~= items.take(n - 1));
        assert(part.last() == items[n - 1]);
    }
    assert(covered_writes(items, part) =~= places_where(wanted, n).map_values(said));
}

/// Ascending places are distinct.
proof fn lemma_ascending(places: Seq<int>, n: int)
    requires
        ascending_below(places, n),
    ensures
        distinct_below(places, n),
{
}

/// The candidates of the second rule are the results of just those writes and edits whose path is read
/// on a later line, in the order of the writes.
pub proof fn read_writes_are_found(items: Seq<ItemModel>) -> (places: Seq<int>)
    ensures
        ascending_below(places, items.len() as int),
        found_at(
            covered_writes(items, items),
            places,
            items.len(),
            |a: int| is_covered_write(items, a),
            |a: int| covered_write_said(items, a),
        ),
{
    let wanted = |a: int| is_covered_write(items, a);
    let said = |a: int| covered_write_said(items, a);
    let places = places_where(wanted, items.len());
    lemma_places(wanted, items.len());
    lemma_ascending(places, items.len() as int);
    lemma_covered_writes_at(items, items.len());
    assert(items.take(items.len() as int) =~= items);
    assert(found_at(covered_writes(items, items), places, items.len(), wanted, said));
    places
}

// ---------------------------------------------------------------------------
// Errors
// ---------------------------------------------------------------------------

/// The name of the tool that was called with an id, and nothing where there was no such call.
pub open spec fn tool_called(items: Seq<ItemModel>, id: Seq<char>) -> Seq<char> {
    if use_of(items, id) is Some {
        (use_of(items, id)->0).name
    } else {
        seq![]
    }
}

/// The items at `a` and `b` are errors of one tool with the same text.
pub open spec fn alike_errors(items: Seq<ItemModel>, a: int, b: int) -> bool {
    items[a] matches ItemModel::Result(x) && items[b] matches ItemModel::Result(y) && x.is_error
        && y.is_error && x.content == y.content && tool_called(items, x.id) == tool_called(items, y.id)
}

/// An error alike stands before the one at `a`.
pub open spec fn is_repeated_error(items: Seq<ItemModel>, a: int) -> bool {
    exists|b: int|
        0 <= b < items.len() && #[trigger] alike_errors(items, b, a) && comes_after(items, b, a)
}

pub open spec fn repeated_error_said(items: Seq<ItemModel>, a: int) -> CandidateModel {
    let r = items[a]->Result_0;
    CandidateModel {
        line: r.line,
        id: r.id,
        rule: "drop_redundant_errors"@,
        reason: "identical "@ + tool_called(items, r.id) + " error already seen earlier in the session"@,
        bytes: byte_len(r.content),
    }
}

pub open spec fn is_error_result(item: ItemModel) -> bool {
    item matches ItemModel::Result(r) && r.is_error
}

proof fn lemma_errors_at(items: Seq<ItemModel>, n: nat)
    requires
        n <= items.len(),
    ensures
        errors_in(items.take(n as int)) == results_at(
            items,
            places_where(|a: int| is_error_result(items[a]), n),
        ),
    decreases n,
{
    let wanted = |a: int| is_error_result(items[a]);
    let part = items.take(n as int);
    if n > 0 {
        lemma_errors_at(items, (n - 1) as nat);
        assert(part.drop_last() =~= items.take(n - 1));
        assert(part.last() == items[n - 1]);
        assert(wanted(n - 1) == is_error_result(items[n - 1]));
    }
    assert(errors_in(part) =~= results_at(items, places_where(wanted, n)));
}

/// The first `m` of the places that repeat an error at an earlier one of them.
spec fn repeats(items: Seq<ItemModel>, sorted: Seq<int>, m: nat) -> Seq<int>
    decreases m,
{
    if m == 0 {
        seq![]
    } else {
        let before = repeats(items, sorted, (m - 1) as nat);
        if exists|j: int| 0 <= j < m - 1 && alike_errors(items, #[trigger] sorted[j], sorted[m - 1]) {
            before.push(sorted[m - 1])
        } else {
            before
        }
    }
}

proof fn lemma_repeats(items: Seq<ItemModel>, sorted: Seq<int>, m: nat)
    requires
        m <= sorted.len(),
        distinct_below(sorted, items.len() as int),
        forall|i: int| 0 <= i < sorted.len() ==> is_error_result(items[#[trigger] sorted[i]]),
    ensures
        distinct_below(repeats(items, sorted, m), items.len() as int),
        forall|a: int| #[trigger]
            repeats(items, sorted, m).contains(a) <==> exists|j: int, k: int|
                0 <= j < k < m && alike_errors(items, #[trigger] sorted[j], #[trigger] sorted[k])
                    && sorted[k] == a,
        repeated_errors(items, results_at(items, sorted.take(m as int))) == repeats(
            items,
            sorted,
            m,
        ).map_values(|a: int| repeated_error_said(items, a)),
    decreases m,
{
    let said = |a: int| repeated_error_said(items, a);
    let out = repeats(items, sorted, m);
    let rs = results_at(items, sorted.take(m as int));
    if m > 0 {
        let before = repeats(items, sorted, (m - 1) as nat);
        let now = sorted[m - 1];
        lemma_repeats(items, sorted, (m - 1) as nat);
        let earlier = results_at(items, sorted.take(m - 1));
        assert(rs.drop_last() =~= earlier);
        assert(is_error_result(items[now]));
        assert(rs.last() == items[now]->Result_0);
        assert forall|j: int| 0 <= j < m - 1 implies same_error(
            items,
            #[trigger] earlier[j],
            rs.last(),
        ) == alike_errors(items, sorted[j], now) by {
            assert(is_error_result(items[sorted[j]]));
            assert(earlier[j] == items[sorted[j]]->Result_0);
        }
        let again = exists|j: int| 0 <= j < m - 1 && alike_errors(items, #[trigger] sorted[j], now);
        if again {
            let j = choose|j: int| 0 <= j < m - 1 && alike_errors(items, #[trigger] sorted[j], now);
            assert(same_error(items, earlier[j], rs.last()));
            assert(repeated_error(items, earlier, rs.last()) == Some(repeated_error_said(items, now)));
        } else {
            assert forall|j: int| 0 <= j < earlier.len() implies !same_error(
                items,
                #[trigger] earlier[j],
                rs.last(),
            ) by {
                assert(!alike_errors(items, sorted[j], now));
            }
            assert(repeated_error(items, earlier, rs.last()) is None);
        }
        assert(repeated_errors(items, rs) =~= out.map_values(said));
        assert forall|a: int| #[trigger] out.contains(a) <==> exists|j: int, k: int|
            0 <= j < k < m && alike_errors(items, #[trigger] sorted[j], #[trigger] sorted[k])
                && sorted[k] == a by {
            assert(before.contains(a) <==> exists|j: int, k: int|
                0 <= j < k < m - 1 && alike_errors(items, #[trigger] sorted[j], #[trigger] sorted[k])
                    && sorted[k] == a);
            if before.contains(a) {
                let i = choose|i: int| 0 <= i < before.len() && before[i] == a;
                assert(out[i] == a);
            }
            if out.contains(a) {
                let i = choose|i: int| 0 <= i < out.len() && out[i] == a;
                if i < before.len() {
                    assert(before[i] == a);
                } else {
                    let j = choose|j: int|
                        0 <= j < m - 1 && alike_errors(items, #[trigger] sorted[j], now);
                    assert(alike_errors(items, sorted[j], sorted[m - 1]));
                }
            }
            if exists|j: int, k: int|
                0 <= j < k < m && alike_errors(items, #[trigger] sorted[j], #[trigger] sorted[k])
                    && sorted[k] == a {
                let (j, k) = choose|j: int, k: int|
                    0 <= j < k < m && alike_errors(items, #[trigger] sorted[j], #[trigger] sorted[k])
                        && sorted[k] == a;
                if k == m - 1 {
                    assert(alike_errors(items, sorted[j], now));
                    assert(out[out.len() - 1] == a);
                } else {
                    assert(before.contains(a));
                }
            }
        }
        assert forall|i: int| 0 <= i < out.len() implies 0 <= #[trigger] out[i] < items.len() by {
            if i < before.len() {
                assert(out[i] == before[i]);
            }
        }
        assert forall|i: int, j: int| 0 <= i < j < out.len() implies #[trigger] out[i]
            != #[trigger] out[j] by {
            assert(out[i] == before[i]);
            if j < before.len() {
                assert(out[j] == before[j]);
            } else {
                assert(before.contains(before[i]));
                let (x, k) = choose|x: int, k: int|
                    0 <= x < k < m - 1 && alike_errors(
                        items,
                        #[trigger] sorted[x],
                        #[trigger] sorted[k],
                    ) && sorted[k] == before[i];
                assert(sorted[k] != sorted[m - 1]);
            }
        }
    } else {
        assert(repeated_errors(items, rs) =~= out.map_values(said));
    }
}

/// The candidates of the third rule are just those errors before which the same tool gave the same one.
pub proof fn repeated_errors_are_found(items: Seq<ItemModel>) -> (places: Seq<int>)
    ensures
        found_at(
            redundant_error_candidates(items),
            places,
            items.len(),
            |a: int| is_repeated_error(items, a),
            |a: int| repeated_error_said(items, a),
        ),
{
    let is_error = |a: int| is_error_result(items[a]);
    let errors = places_where(is_error, items.len());
    let sorted = by_line(items, errors);
    let wanted = |a: int| is_repeated_error(items, a);
    let said = |a: int| repeated_error_said(items, a);
    let n = sorted.len();
    lemma_places(is_error, items.len());
    lemma_by_line(items, errors);
    lemma_errors_at(items, items.len());
    assert(items.take(items.len() as int) =~= items);
    assert forall|i: int| 0 <= i < errors.len() implies items[#[trigger] errors[i]] is Result by {
        assert(errors.contains(errors[i]));
        assert(is_error(errors[i]));
    }
    lemma_results_by_line(items, errors);
    assert forall|i: int| 0 <= i < sorted.len() implies is_error_result(
        items[#[trigger] sorted[i]],
    ) by {
        assert(sorted.contains(sorted[i]));
        assert(errors.contains(sorted[i]));
        assert(is_error(sorted[i]));
    }
    lemma_repeats(items, sorted, n);
    assert(sorted.take(n as int) =~= sorted);
    let places = repeats(items, sorted, n);
    let cs = redundant_error_candidates(items);
    assert(cs == places.map_values(said));
    assert forall|a: int| 0 <= a < items.len() implies (#[trigger] places.contains(a) <==> wanted(a)) by {
        if places.contains(a) {
            let (j, k) = choose|j: int, k: int|
                0 <= j < k < n && alike_errors(items, #[trigger] sorted[j], #[trigger] sorted[k])
                    && sorted[k] == a;
            assert(comes_after(items, sorted[j], sorted[k]));
            assert(alike_errors(items, sorted[j], a));
        }
        if wanted(a) {
            let b = choose|b: int|
                0 <= b < items.len() && #[trigger] alike_errors(items, b, a) && comes_after(items, b, a);
            assert(is_error(a) && is_error(b));
            assert(errors.contains(a) && errors.contains(b));
            assert(sorted.contains(a) && sorted.contains(b));
            let k = choose|k: int| 0 <= k < n && sorted[k] == a;
            let j = choose|j: int| 0 <= j < n && sorted[j] == b;
            if k < j {
                assert(comes_after(items, sorted[k], sorted[j]));
            }
            assert(alike_errors(items, sorted[j], sorted[k]));
        }
    }
    assert(found_at(cs, places, items.len(), wanted, said));
    places
}

// ---------------------------------------------------------------------------
// Large outputs and launches
// ---------------------------------------------------------------------------

/// The item at `a` is a result of more than so many bytes with at least the window behind it.
pub open spec fn is_old_large(items: Seq<ItemModel>, a: int, min_bytes: int, window: int) -> bool {
    items[a] matches ItemModel::Result(r) && byte_len(r.content) > min_bytes && a < items.len() - window
}

pub open spec fn old_large_said(items: Seq<ItemModel>, a: int, window: int) -> CandidateModel {
    let r = items[a]->Result_0;
    CandidateModel {
        line: r.line,
        id: r.id,
        rule: "prune_old_large_outputs"@,
        reason: dec(byte_len(r.content)) + " bytes, outside the last "@ + dec(window as nat)
            + " items"@,
        bytes: byte_len(r.content),
    }
}

proof fn lemma_old_large_at(items: Seq<ItemModel>, min_bytes: int, window: int, n: nat)
    requires
        n <= items.len(),
    ensures
        old_large_outputs(items.take(n as int), items.len() as int, min_bytes, window) == places_where(
            |a: int| is_old_large(items, a, min_bytes, window),
            n,
        ).map_values(|a: int| old_large_said(items, a, window)),
    decreases n,
{
    let wanted = |a: int| is_old_large(items, a, min_bytes, window);
    let said = |a: int| old_large_said(items, a, window);
    let part = items.take(n as int);
    if n > 0 {
        lemma_old_large_at(items, min_bytes, window, (n - 1) as nat);
        assert(part.drop_last() =~= items.take(n - 1));
        assert(part.last() == items[n - 1]);
    }
    assert(old_large_outputs(part, items.len() as int, min_bytes, window) =~= places_where(
        wanted,
        n,
    ).map_values(said));
}

/// The candidates of the fourth rule are just those results that are larger than allowed and stand
/// before the last items, as many as the window says.
pub proof fn old_large_outputs_are_found(
    items: Seq<ItemModel>,
    min_bytes: int,
    window: int,
) -> (places: Seq<int>)
    ensures
        ascending_below(places, items.len() as int),
        found_at(
            old_large_outputs(items, items.len() as int, min_bytes, window),
            places,
            items.len(),
            |a: int| is_old_large(items, a, min_bytes, window),
            |a: int| old_large_said(items, a, window),
        ),
{
    let wanted = |a: int| is_old_large(items, a, min_bytes, window);
    let said = |a: int| old_large_said(items, a, window);
    let places = places_where(wanted, items.len());
    lemma_places(wanted, items.len());
    lemma_ascending(places, items.len() as int);
    lemma_old_large_at(items, min_bytes, window, items.len());
    assert(items.take(items.len() as int) =~= items);
    assert(found_at(
        old_large_outputs(items, items.len() as int, min_bytes, window),
        places,
        items.len(),
        wanted,
        said,
    ));
    places
}

/// The item says that a task was started in the background.
pub open spec fn announces_task(item: ItemModel) -> bool {
    item matches ItemModel::Result(r) && contains_text(r.content, "running in background with ID:"@)
}

/// An announcement that another one follows.
pub open spec fn is_old_launch(items: Seq<ItemModel>, a: int) -> bool {
    announces_task(items[a]) && exists|b: int|
        0 <= b < items.len() && announces_task(#[trigger] items[b]) && comes_after(items, a, b)
}

pub open spec fn old_launch_said(items: Seq<ItemModel>, a: int) -> CandidateModel {
    let r = items[a]->Result_0;
    CandidateModel {
        line: r.line,
        id: r.id,
        rule: "collapse_task_launches"@,
        reason: "an earlier background-task-launch notice superseded by a later one"@,
        bytes: byte_len(r.content),
    }
}

proof fn lemma_launches_at(items: Seq<ItemModel>, n: nat)
    requires
        n <= items.len(),
    ensures
        launches_in(items.take(n as int)) == results_at(
            items,
            places_where(|a: int| announces_task(items[a]), n),
        ),
    decreases n,
{
    let wanted = |a: int| announces_task(items[a]);
    let part = items.take(n as int);
    if n > 0 {
        lemma_launches_at(items, (n - 1) as nat);
        assert(part.drop_last() =~= items.take(n - 1));
        assert(part.last() == items[n - 1]);
        assert(wanted(n - 1) == announces_task(items[n - 1]));
    }
    assert(launches_in(part) =~= results_at(items, places_where(wanted, n)));
}

/// The candidates of the fifth rule are just those announcements of a task that another one follows.
pub proof fn old_launches_are_found(items: Seq<ItemModel>) -> (places: Seq<int>)
    ensures
        found_at(
            launch_candidates(items),
            places,
            items.len(),
            |a: int| is_old_launch(items, a),
            |a: int| old_launch_said(items, a),
        ),
{
    let launch = |a: int| announces_task(items[a]);
    let launches = places_where(launch, items.len());
    let sorted = by_line(items, launches);
    let places = all_but_last(sorted);
    let wanted = |a: int| is_old_launch(items, a);
    let said = |a: int| old_launch_said(items, a);
    lemma_places(launch, items.len());
    lemma_by_line(items, launches);
    lemma_launches_at(items, items.len());
    assert(items.take(items.len() as int) =~= items);
    assert forall|i: int| 0 <= i < launches.len() implies items[#[trigger] launches[i]] is Result by {
        assert(launches.contains(launches[i]));
        assert(launch(launches[i]));
    }
    lemma_results_by_line(items, launches);
    let cs = launch_candidates(items);
    assert(cs =~= places.map_values(said));
    assert forall|i: int| 0 <= i < places.len() implies 0 <= #[trigger] places[i] < items.len() by {
        assert(places[i] == sorted[i]);
    }
    assert forall|i: int, j: int| 0 <= i < j < places.len() implies #[trigger] places[i]
        != #[trigger] places[j] by {
        assert(places[i] == sorted[i] && places[j] == sorted[j]);
    }
    assert forall|a: int| 0 <= a < items.len() implies (#[trigger] places.contains(a) <==> wanted(a)) by {
        if places.contains(a) {
            let k = choose|k: int| 0 <= k < places.len() && places[k] == a;
            let b = sorted[sorted.len() - 1];
            assert(sorted[k] == a);
            assert(sorted.contains(a) && sorted.contains(b));
            assert(launches.contains(a) && launches.contains(b));
            assert(launch(a) && launch(b));
            assert(comes_after(items, sorted[k], sorted[sorted.len() - 1]));
            assert(announces_task(items[b]));
        }
        if wanted(a) {
            let b = choose|b: int|
                0 <= b < items.len() && announces_task(#[trigger] items[b]) && comes_after(items, a, b);
            assert(launch(a) && launch(b));
            assert(launches.contains(a) && launches.contains(b));
            assert(sorted.contains(a) && sorted.contains(b));
            let k = choose|k: int| 0 <= k < sorted.len() && sorted[k] == a;
            let l = choose|l: int| 0 <= l < sorted.len() && sorted[l] == b;
            if k == sorted.len() - 1 {
                if l < k {
                    assert(comes_after(items, sorted[l], sorted[k]));
                }
            } else {
                assert(places[k] == a);
            }
        }
    }
    assert(found_at(cs, places, items.len(), wanted, said));
    places
}

/// A run of all rules finds what each of them finds, and no more; the second only where it is asked for.
pub proof fn every_rule_has_its_say(
    items: Seq<ItemModel>,
    include_rule_2: bool,
    min_bytes: int,
    window: int,
    c: CandidateModel,
)
    ensures
        all_candidates(items, include_rule_2, min_bytes, window).contains(c) <==> {
            ||| latest_read_candidates(items).contains(c)
            ||| include_rule_2 && covered_writes(items, items).contains(c)
            ||| redundant_error_candidates(items).contains(c)
            ||| old_large_outputs(items, items.len() as int, min_bytes, window).contains(c)
            ||| launch_candidates(items).contains(c)
        },
        all_candidates(items, true, min_bytes, window).len() == latest_read_candidates(items).len()
            + covered_writes(items, items).len() + redundant_error_candidates(items).len()
            + old_large_outputs(items, items.len() as int, min_bytes, window).len()
            + launch_candidates(items).len(),
        all_candidates(items, true, min_bytes, window).len() == all_candidates(
            items,
            false,
            min_bytes,
            window,
        ).len() + covered_writes(items, items).len(),
{
    let r1 = latest_read_candidates(items);
    let r2 = if include_rule_2 {
        covered_writes(items, items)
    } else {
        seq![]
    };
    let r3 = redundant_error_candidates(items);
    let r4 = old_large_outputs(items, items.len() as int, min_bytes, window);
    let r5 = launch_candidates(items);
    lemma_add_contains(r1, r2, c);
    lemma_add_contains(r1 + r2, r3, c);
    lemma_add_contains(r1 + r2 + r3, r4, c);
    lemma_add_contains(r1 + r2 + r3 + r4, r5, c);
}

proof fn lemma_add_contains<T>(a: Seq<T>, b: Seq<T>, x: T)
    ensures
        (a + b).contains(x) <==> a.contains(x) || b.contains(x),
{
    if (a + b).contains(x) {
        let k = choose|k: int| 0 <= k < (a + b).len() && (a + b)[k] == x;
        if k < a.len() {
            assert(a[k] == x);
        } else {
            assert(b[k - a.len()] == x);
        }
    }
    if a.contains(x) {
        let k = choose|k: int| 0 <= k < a.len() && a[k] == x;
        assert((a + b)[k] == x);
    }
    if b.contains(x) {
        let k = choose|k: int| 0 <= k < b.len() && b[k] == x;
        assert((a + b)[a.len() + k] == x);
    }
}

// ---------------------------------------------------------------------------
// Items
// ---------------------------------------------------------------------------

/// A further block adds the call or the result that it holds to the items of its line, and nothing
/// where it is neither.
pub proof fn further_blocks_add_items(line: int, blocks: Seq<JsonModel>, block: JsonModel)
    ensures
        block.get_text("type"@) == Some("tool_use"@) && block.get_text("id"@) is Some
            && block.get_text("name"@) is Some ==> block_items(line, blocks.push(block))
            == block_items(line, blocks).push(
            ItemModel::Use(
                UseModel {
                    line,
                    id: block.get_text("id"@)->0,
                    name: block.get_text("name"@)->0,
                    path: if block.get("input"@) is Some {
                        (block.get("input"@)->0).get_text("file_path"@)
                    } else {
                        None
                    },
                },
            ),
        ),
        block.get_text("type"@) == Some("tool_result"@) && block.get_text("tool_use_id"@) is Some
            ==> block_items(line, blocks.push(block)) == block_items(line, blocks).push(
            ItemModel::Result(
                ResultModel {
                    line,
                    id: block.get_text("tool_use_id"@)->0,
                    content: if block.get_text("content"@) is Some {
                        block.get_text("content"@)->0
                    } else {
                        seq![]
                    },
                    is_error: block.get_bool("is_error"@) == Some(true),
                },
            ),
        ),
        block.get_text("type"@) != Some("tool_use"@) && block.get_text("type"@) != Some("tool_result"@)
            ==> block_items(line, blocks.push(block)) == block_items(line, blocks),
{
    assert(blocks.push(block).drop_last() =~= blocks);
    reveal_strlit("tool_use");
    reveal_strlit("tool_result");
    assert("tool_use"@.len() != "tool_result"@.len());
}

/// A further line adds the items of the blocks of its message, each with the index of the line.
pub proof fn further_lines_add_items(
    lines: Seq<Seq<char>>,
    line: Seq<char>,
    message: JsonModel,
    blocks: Seq<JsonModel>,
)
    requires
        trim(line).len() > 0,
        json_parse(line) is Some,
        (json_parse(line)->0).get("message"@) == Some(message),
        message.get("content"@) == Some(JsonModel::Array(blocks)),
    ensures
        session_items(lines.push(line)) == session_items(lines) + block_items(
            lines.len() as int,
            blocks,
        ),
{
    assert(lines.push(line).drop_last() =~= lines);
    assert(message_blocks(json_parse(line)->0) == Some(blocks));
    assert(line_items(lines.len() as int, line) == block_items(lines.len() as int, blocks));
}

// ---------------------------------------------------------------------------
// Pruning
// ---------------------------------------------------------------------------

proof fn lemma_candidate_for(candidates: Seq<CandidateModel>, id: Seq<char>, j: int)
    ensures
        0 <= j < candidates.len() && candidates[j].id == id && (forall|k: int|
            j < k < candidates.len() ==> (#[trigger] candidates[k]).id != id) ==> candidate_for(
            candidates,
            id,
        ) == Some(candidates[j]),
        (forall|k: int| 0 <= k < candidates.len() ==> (#[trigger] candidates[k]).id != id)
            ==> candidate_for(candidates, id) is None,
    decreases candidates.len(),
{
    if candidates.len() > 0 {
        let rest = candidates.drop_last();
        lemma_candidate_for(rest, id, j);
        assert(candidates.last() == candidates[candidates.len() - 1]);
        assert forall|k: int| 0 <= k < rest.len() implies #[trigger] rest[k] == candidates[k] by {}
    }
}

/// Where the line of a result names a candidate and the result is one itself, a note with the rule and
/// the size of the last candidate of its id takes the place of its text.
pub proof fn results_of_candidates_are_noted(
    items: Seq<ItemModel>,
    lines: Seq<Seq<char>>,
    candidates: Seq<CandidateModel>,
    i: int,
    j: int,
    named: int,
)
    requires
        0 <= i < items.len(),
        items[i] is Result,
        0 <= j < candidates.len(),
        candidates[j].id == items[i]->Result_0.id,
        forall|k: int|
            j < k < candidates.len() ==> (#[trigger] candidates[k]).id != items[i]->Result_0.id,
        0 <= named < candidates.len(),
        contains_text(lines[items[i]->Result_0.line], candidates[named].id),
    ensures
        pruned_items(items, lines, candidates)[i] == ItemModel::Result(
            ResultModel {
                line: items[i]->Result_0.line,
                id: items[i]->Result_0.id,
                content: "[... squishi session_prune: "@ + candidates[j].rule + " removed, "@ + dec(
                    candidates[j].bytes,
                ) + " bytes ...]"@,
                is_error: items[i]->Result_0.is_error,
            },
        ),
{
    lemma_candidate_for(candidates, items[i]->Result_0.id, j);
    assert(mentions(lines[items[i]->Result_0.line], candidates));
}

/// A call stays as it is, and so does the result of no candidate.
pub proof fn other_items_stay(
    items: Seq<ItemModel>,
    lines: Seq<Seq<char>>,
    candidates: Seq<CandidateModel>,
    i: int,
)
    requires
        0 <= i < items.len(),
        items[i] matches ItemModel::Result(r) ==> forall|k: int|
            0 <= k < candidates.len() ==> (#[trigger] candidates[k]).id != r.id,
    ensures
        pruned_items(items, lines, candidates)[i] == items[i],
{
    if items[i] is Result {
        lemma_candidate_for(candidates, items[i]->Result_0.id, 0);
    }
}

/// A line that is blank, no JSON, or without an array of blocks in its message adds nothing.
pub proof fn other_lines_add_no_items(lines: Seq<Seq<char>>, line: Seq<char>)
    requires
        trim(line).len() == 0 || json_parse(line) is None || !((json_parse(line)->0).get("message"@) matches Some(
            m,
        ) && m.get("content"@) matches Some(c) && c is Array),
    ensures
        session_items(lines.push(line)) == session_items(lines),
{
    assert(lines.push(line).drop_last() =~= lines);
    assert(line_items(lines.len() as int, line) =~= Seq::<ItemModel>::empty());
    assert(session_items(lines) + Seq::<ItemModel>::empty() =~= session_items(lines));
}

} // verus!
