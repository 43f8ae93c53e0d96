//! Which tool results of a session transcript are stale, and a transcript without them.
use crate::json::{
    field, field_models, group_json_models, json_parse, json_text, lemma_with_field_well_formed,
    lemma_with_other_field, lemma_with_same_field, models, no_raw_names, one_line, parse_json,
    reads_back, same_but_fractions, same_fields_but_fractions, set_field, well_formed, with_field,
    write_json, Json, JsonModel, MAX_DEPTH,
};
use crate::order::{
    arranged, distinct_below, ints, order_by, signed_keys, stable_order, stable_order_sorts,
};
use crate::session_digest::{block_texts, digest_of, message_texts, record_turns};
use crate::text::{
    byte_len, bytes_in, contains_text, copy_str, dec, decimal_usize, find_char, has_char, holds,
    holds_text, index_of, is_empty_text, lemma_index_of, lemma_index_of_is, lemma_views_push, lines,
    option_view, same_text, slice_text, split_lines, strip_cr, text_contains, text_less, to_chars,
    trim, trim_text, views,
};
use vstd::prelude::*;

verus! {

#[derive(Debug, Clone, PartialEq)]
pub struct ToolUseItem {
    pub line_index: usize,
    pub id: String,
    pub name: String,
    pub path: Option<String>,
}

#[derive(Debug, Clone, PartialEq)]
pub struct ToolResultItem {
    pub line_index: usize,
    pub tool_use_id: String,
    pub content: String,
    pub is_error: bool,
}

#[derive(Debug, Clone, PartialEq)]
pub enum SessionItem {
    ToolUse(ToolUseItem),
    ToolResult(ToolResultItem),
}

/// A tool result that a rule would remove.
#[derive(Debug, Clone, PartialEq)]
pub struct PruneCandidate {
    pub line_index: usize,
    pub tool_use_id: String,
    pub rule: &'static str,
    pub reason: String,
    pub bytes: usize,
}

pub struct UseModel {
    pub line: int,
    pub id: Seq<char>,
    pub name: Seq<char>,
    pub path: Option<Seq<char>>,
}

pub struct ResultModel {
    pub line: int,
    pub id: Seq<char>,
    pub content: Seq<char>,
    pub is_error: bool,
}

pub enum ItemModel {
    Use(UseModel),
    Result(ResultModel),
}

pub struct CandidateModel {
    pub line: int,
    pub id: Seq<char>,
    pub rule: Seq<char>,
    pub reason: Seq<char>,
    pub bytes: nat,
}

impl View for ToolUseItem {
    type V = UseModel;

    open spec fn view(&self) -> UseModel {
        UseModel {
            line: self.line_index as int,
            id: self.id@,
            name: self.name@,
            path: option_view(self.path),
        }
    }
}

impl View for ToolResultItem {
    type V = ResultModel;

    open spec fn view(&self) -> ResultModel {
        ResultModel {
            line: self.line_index as int,
            id: self.tool_use_id@,
            content: self.content@,
            is_error: self.is_error,
        }
    }
}

impl View for SessionItem {
    type V = ItemModel;

    open spec fn view(&self) -> ItemModel {
        match self {
            SessionItem::ToolUse(u) => ItemModel::Use(u@),
            SessionItem::ToolResult(r) => ItemModel::Result(r@),
        }
    }
}

impl View for PruneCandidate {
    type V = CandidateModel;

    open spec fn view(&self) -> CandidateModel {
        CandidateModel {
            line: self.line_index as int,
            id: self.tool_use_id@,
            rule: self.rule@,
            reason: self.reason@,
            bytes: self.bytes as nat,
        }
    }
}

pub open spec fn use_models(v: Seq<ToolUseItem>) -> Seq<UseModel> {
    v.map_values(|u: ToolUseItem| u@)
}

pub open spec fn result_models(v: Seq<ToolResultItem>) -> Seq<ResultModel> {
    v.map_values(|r: ToolResultItem| r@)
}

pub open spec fn item_models(v: Seq<SessionItem>) -> Seq<ItemModel> {
    v.map_values(|i: SessionItem| i@)
}

pub open spec fn candidate_models(v: Seq<PruneCandidate>) -> Seq<CandidateModel> {
    v.map_values(|c: PruneCandidate| c@)
}

/// The sequence with one more element, where there is one.
pub open spec fn with_option<T>(s: Seq<T>, o: Option<T>) -> Seq<T> {
    match o {
        Some(x) => s.push(x),
        None => s,
    }
}

/// The blocks of a transcript record: the array under `content` of its `message`.
pub open spec fn message_blocks(record: JsonModel) -> Option<Seq<JsonModel>> {
    match record.get("message"@) {
        Some(message) => match message.get("content"@) {
            Some(JsonModel::Array(blocks)) => Some(blocks),
            _ => None,
        },
        None => None,
    }
}

/// The path that a tool call was given.
pub open spec fn used_path(block: JsonModel) -> Option<Seq<char>> {
    match block.get("input"@) {
        Some(input) => input.get_text("file_path"@),
        None => None,
    }
}

pub open spec fn use_in(line: int, block: JsonModel) -> Option<UseModel> {
    match (block.get_text("id"@), block.get_text("name"@)) {
        (Some(id), Some(name)) => Some(UseModel { line, id, name, path: used_path(block) }),
        _ => None,
    }
}

pub open spec fn result_in(line: int, block: JsonModel) -> Option<ResultModel> {
    match block.get_text("tool_use_id"@) {
        Some(id) => Some(
            ResultModel {
                line,
                id,
                content: match block.get_text("content"@) {
                    Some(t) => t,
                    None => seq![],
                },
                is_error: block.get_bool("is_error"@) == Some(true),
            },
        ),
        None => None,
    }
}

/// The tool call or tool result that a block of a line holds.
pub open spec fn block_item(line: int, block: JsonModel) -> Option<ItemModel> {
    if block.get_text("type"@) == Some("tool_use"@) {
        match use_in(line, block) {
            Some(u) => Some(ItemModel::Use(u)),
            None => None,
        }
    } else if block.get_text("type"@) == Some("tool_result"@) {
        match result_in(line, block) {
            Some(r) => Some(ItemModel::Result(r)),
            None => None,
        }
    } else {
        None
    }
}

pub open spec fn block_items(line: int, blocks: Seq<JsonModel>) -> Seq<ItemModel>
    decreases blocks.len(),
{
    if blocks.len() == 0 {
        seq![]
    } else {
        with_option(block_items(line, blocks.drop_last()), block_item(line, blocks.last()))
    }
}

/// The items of a line: none where it is blank or no record.
pub open spec fn line_items(line: int, text: Seq<char>) -> Seq<ItemModel> {
    if trim(text).len() == 0 {
        seq![]
    } else {
        match json_parse(text) {
            Some(record) => match message_blocks(record) {
                Some(blocks) => block_items(line, blocks),
                None => seq![],
            },
            None => seq![],
        }
    }
}

/// The items of a transcript in order, each with the index of its line.
pub open spec fn session_items(lines: Seq<Seq<char>>) -> Seq<ItemModel>
    decreases lines.len(),
{
    if lines.len() == 0 {
        seq![]
    } else {
        session_items(lines.drop_last()) + line_items(lines.len() - 1, lines.last())
    }
}

/// The blocks of a record, where it has some.
pub(crate) fn blocks_of<'a>(record: &'a Json) -> (r: Option<&'a Vec<Json>>)
    ensures
        r is Some <==> message_blocks(record@) is Some,
        r matches Some(v) ==> message_blocks(record@) == Some(models(v@)),
{
    broadcast use group_json_models;

    match record.get("message") {
        Some(message) => match message.get("content") {
            Some(Json::Array(v)) => Some(v),
            _ => None,
        },
        None => None,
    }
}

pub(crate) fn copy_option(s: Option<&str>) -> (r: Option<String>)
    ensures
        s is Some <==> r is Some,
        r matches Some(t) ==> t@ == s->0@,
{
    match s {
        Some(t) => Some(copy_str(t)),
        None => None,
    }
}

fn read_use(line_index: usize, block: &Json) -> (r: Option<ToolUseItem>)
    ensures
        r is Some <==> use_in(line_index as int, block@) is Some,
        r matches Some(u) ==> use_in(line_index as int, block@) == Some(u@),
{
    match (block.get_text("id"), block.get_text("name")) {
        (Some(id), Some(name)) => {
            let path: Option<String> = match block.get("input") {
                Some(input) => copy_option(input.get_text("file_path")),
                None => None,
            };
            assert(option_view(path) == used_path(block@));
            Some(ToolUseItem { line_index, id: copy_str(id), name: copy_str(name), path })
        },
        _ => None,
    }
}

fn read_result(line_index: usize, block: &Json) -> (r: Option<ToolResultItem>)
    ensures
        r is Some <==> result_in(line_index as int, block@) is Some,
        r matches Some(x) ==> result_in(line_index as int, block@) == Some(x@),
{
    match block.get_text("tool_use_id") {
        Some(id) => {
            let content: String = match block.get_text("content") {
                Some(t) => copy_str(t),
                None => String::new(),
            };
            let is_error: bool = match block.get_bool("is_error") {
                Some(b) => b,
                None => false,
            };
            Some(ToolResultItem { line_index, tool_use_id: copy_str(id), content, is_error })
        },
        None => None,
    }
}

fn read_block(line_index: usize, block: &Json) -> (r: Option<SessionItem>)
    ensures
        r is Some <==> block_item(line_index as int, block@) is Some,
        r matches Some(i) ==> block_item(line_index as int, block@) == Some(i@),
{
    match block.get_text("type") {
        Some(t) => {
            if same_text(t, "tool_use") {
                match read_use(line_index, block) {
                    Some(u) => Some(SessionItem::ToolUse(u)),
                    None => None,
                }
            } else if same_text(t, "tool_result") {
                match read_result(line_index, block) {
                    Some(x) => Some(SessionItem::ToolResult(x)),
                    None => None,
                }
            } else {
                None
            }
        },
        None => None,
    }
}

proof fn lemma_item_models_push(v: Seq<SessionItem>, i: SessionItem)
    ensures
        item_models(v.push(i)) == item_models(v).push(i@),
{
    assert(item_models(v.push(i)) =~= item_models(v).push(i@));
}

fn read_line(line_index: usize, text: &str, items: &mut Vec<SessionItem>)
    ensures
        item_models(final(items)@) == item_models(old(items)@) + line_items(
            line_index as int,
            text@,
        ),
{
    let ghost before = item_models(items@);
    assert(before + seq![] =~= before);
    let trimmed = trim_text(text);
    if is_empty_text(trimmed.as_str()) {
        return ;
    }
    let record = match parse_json(text) {
        Some(r) => r,
        None => {
            return ;
        },
    };
    match blocks_of(&record) {
        Some(blocks) => {
            let ghost all = models(blocks@);
            let mut i: usize = 0;
            assert(all.take(0) =~= seq![]);
            while i < blocks.len()
                invariant
                    i <= blocks@.len(),
                    all == models(blocks@),
                    item_models(items@) == before + block_items(
                        line_index as int,
                        all.take(i as int),
                    ),
                decreases blocks.len() - i,
            {
                assert(all.take(i + 1).drop_last() =~= all.take(i as int));
                assert(all.take(i + 1).last() == blocks@[i as int]@);
                let ghost have = items@;
                let ghost so_far = block_items(line_index as int, all.take(i as int));
                match read_block(line_index, &blocks[i]) {
                    Some(item) => {
                        proof {
                            lemma_item_models_push(have, item);
                        }
                        assert((before + so_far).push(item@) =~= before + so_far.push(item@));
                        items.push(item);
                    },
                    None => {},
                }
                i = i + 1;
            }
            assert(all.take(all.len() as int) =~= all);
        },
        None => {},
    }
}

/// The tool calls and tool results of a transcript of one JSON record per line.
pub fn parse(jsonl: &str) -> (items: Vec<SessionItem>)
    ensures
        item_models(items@) == session_items(split_lines(jsonl@)),
{
    let ls = lines(jsonl);
    let ghost all = views(ls@);
    let mut items: Vec<SessionItem> = Vec::new();
    let mut i: usize = 0;
    assert(all.take(0) =~= seq![]);
    assert(item_models(items@) =~= session_items(all.take(0)));
    while i < ls.len()
        invariant
            i <= ls@.len(),
            all == views(ls@),
            item_models(items@) == session_items(all.take(i as int)),
        decreases ls.len() - i,
    {
        assert(all.take(i + 1).drop_last() =~= all.take(i as int));
        assert(all.take(i + 1).last() == ls@[i as int]@);
        read_line(i, ls[i].as_str(), &mut items);
        i = i + 1;
    }
    assert(all.take(all.len() as int) =~= all);
    items
}

/// The result of a tool call; the last one where there are several.
pub open spec fn result_of(items: Seq<ItemModel>, id: Seq<char>) -> Option<ResultModel>
    decreases items.len(),
{
    if items.len() == 0 {
        None
    } else {
        match items.last() {
            ItemModel::Result(r) if r.id == id => Some(r),
            _ => result_of(items.drop_last(), id),
        }
    }
}

/// The tool call with an id; the last one where there are several.
pub open spec fn use_of(items: Seq<ItemModel>, id: Seq<char>) -> Option<UseModel>
    decreases items.len(),
{
    if items.len() == 0 {
        None
    } else {
        match items.last() {
            ItemModel::Use(u) if u.id == id => Some(u),
            _ => use_of(items.drop_last(), id),
        }
    }
}

fn find_result<'a>(items: &'a [SessionItem], id: &str) -> (r: Option<&'a ToolResultItem>)
    ensures
        r is Some <==> result_of(item_models(items@), id@) is Some,
        r matches Some(x) ==> result_of(item_models(items@), id@) == Some(x@),
{
    let ghost all = item_models(items@);
    let mut i: usize = items.len();
    assert(all.take(i as int) =~= all);
    while i > 0
        invariant
            i <= items@.len(),
            all == item_models(items@),
            result_of(all, id@) == result_of(all.take(i as int), id@),
        decreases i,
    {
        assert(all.take(i as int).drop_last() =~= all.take(i - 1));
        assert(all.take(i as int).last() == items@[i - 1]@);
        i = i - 1;
        match &items[i] {
            SessionItem::ToolResult(x) => {
                if same_text(x.tool_use_id.as_str(), id) {
                    return Some(x);
                }
            },
            SessionItem::ToolUse(_) => {},
        }
    }
    None
}

fn find_use<'a>(items: &'a [SessionItem], id: &str) -> (r: Option<&'a ToolUseItem>)
    ensures
        r is Some <==> use_of(item_models(items@), id@) is Some,
        r matches Some(x) ==> use_of(item_models(items@), id@) == Some(x@),
{
    let ghost all = item_models(items@);
    let mut i: usize = items.len();
    assert(all.take(i as int) =~= all);
    while i > 0
        invariant
            i <= items@.len(),
            all == item_models(items@),
            use_of(all, id@) == use_of(all.take(i as int), id@),
        decreases i,
    {
        assert(all.take(i as int).drop_last() =~= all.take(i - 1));
        assert(all.take(i as int).last() == items@[i - 1]@);
        i = i - 1;
        match &items[i] {
            SessionItem::ToolUse(x) => {
                if same_text(x.id.as_str(), id) {
                    return Some(x);
                }
            },
            SessionItem::ToolResult(_) => {},
        }
    }
    None
}

proof fn lemma_candidates_push(v: Seq<PruneCandidate>, c: PruneCandidate)
    ensures
        candidate_models(v.push(c)) == candidate_models(v).push(c@),
{
    assert(candidate_models(v.push(c)) =~= candidate_models(v).push(c@));
}

/// The path of an item that reads a file.
pub open spec fn path_read(item: ItemModel) -> Option<Seq<char>> {
    match item {
        ItemModel::Use(u) if u.name == "Read"@ => u.path,
        _ => None,
    }
}

/// The paths that are read, in the order in which they come first.
pub open spec fn read_paths(items: Seq<ItemModel>) -> Seq<Seq<char>>
    decreases items.len(),
{
    if items.len() == 0 {
        seq![]
    } else {
        let paths = read_paths(items.drop_last());
        match path_read(items.last()) {
            Some(p) if !holds(paths, p) => paths.push(p),
            _ => paths,
        }
    }
}

/// The reads of a path in order.
pub open spec fn reads_of(items: Seq<ItemModel>, path: Seq<char>) -> Seq<UseModel>
    decreases items.len(),
{
    if items.len() == 0 {
        seq![]
    } else {
        let reads = reads_of(items.drop_last(), path);
        if path_read(items.last()) == Some(path) {
            reads.push(items.last()->Use_0)
        } else {
            reads
        }
    }
}

pub open spec fn uses_by_line(uses: Seq<UseModel>) -> Seq<UseModel> {
    arranged(uses, stable_order(Seq::new(uses.len(), |i: int| uses[i].line)))
}

pub open spec fn results_by_line(results: Seq<ResultModel>) -> Seq<ResultModel> {
    arranged(results, stable_order(Seq::new(results.len(), |i: int| results[i].line)))
}

/// All but the last element.
pub open spec fn all_but_last<T>(s: Seq<T>) -> Seq<T> {
    if s.len() == 0 {
        s
    } else {
        s.drop_last()
    }
}

pub open spec fn stale_read(items: Seq<ItemModel>, path: Seq<char>, read: UseModel) -> Option<
    CandidateModel,
> {
    match result_of(items, read.id) {
        Some(r) => Some(
            CandidateModel {
                line: r.line,
                id: read.id,
                rule: "dedupe_latest_read"@,
                reason: "older Read of "@ + path
                    + " superseded by a later Read of the same path"@,
                bytes: byte_len(r.content),
            },
        ),
        None => None,
    }
}

pub open spec fn stale_reads(
    items: Seq<ItemModel>,
    path: Seq<char>,
    reads: Seq<UseModel>,
) -> Seq<CandidateModel>
    decreases reads.len(),
{
    if reads.len() == 0 {
        seq![]
    } else {
        with_option(
            stale_reads(items, path, reads.drop_last()),
            stale_read(items, path, reads.last()),
        )
    }
}

/// The results of all reads of the paths but the last of each.
pub open spec fn stale_reads_of(items: Seq<ItemModel>, paths: Seq<Seq<char>>) -> Seq<CandidateModel>
    decreases paths.len(),
{
    if paths.len() == 0 {
        seq![]
    } else {
        let path = paths.last();
        stale_reads_of(items, paths.drop_last()) + stale_reads(
            items,
            path,
            all_but_last(uses_by_line(reads_of(items, path))),
        )
    }
}

pub open spec fn latest_read_candidates(items: Seq<ItemModel>) -> Seq<CandidateModel> {
    stale_reads_of(items, read_paths(items))
}

fn copy_use(u: &ToolUseItem) -> (r: ToolUseItem)
    ensures
        r@ == u@,
{
    let path = match &u.path {
        Some(p) => Some(copy_str(p.as_str())),
        None => None,
    };
    ToolUseItem {
        line_index: u.line_index,
        id: copy_str(u.id.as_str()),
        name: copy_str(u.name.as_str()),
        path,
    }
}

fn copy_result(r: &ToolResultItem) -> (c: ToolResultItem)
    ensures
        c@ == r@,
{
    ToolResultItem {
        line_index: r.line_index,
        tool_use_id: copy_str(r.tool_use_id.as_str()),
        content: copy_str(r.content.as_str()),
        is_error: r.is_error,
    }
}

fn path_read_by<'a>(item: &'a SessionItem) -> (r: Option<&'a String>)
    ensures
        r is Some <==> path_read(item@) is Some,
        r matches Some(p) ==> path_read(item@) == Some(p@) && item is ToolUse,
{
    match item {
        SessionItem::ToolUse(u) => {
            if same_text(u.name.as_str(), "Read") {
                match &u.path {
                    Some(p) => Some(p),
                    None => None,
                }
            } else {
                None
            }
        },
        SessionItem::ToolResult(_) => None,
    }
}

fn collect_read_paths(items: &[SessionItem]) -> (out: Vec<String>)
    ensures
        views(out@) == read_paths(item_models(items@)),
{
    broadcast use lemma_views_push;

    let ghost all = item_models(items@);
    let mut out: Vec<String> = Vec::new();
    let mut i: usize = 0;
    assert(all.take(0) =~= seq![]);
    assert(views(out@) =~= read_paths(all.take(0)));
    while i < items.len()
        invariant
            i <= items@.len(),
            all == item_models(items@),
            views(out@) == read_paths(all.take(i as int)),
        decreases items.len() - i,
    {
        assert(all.take(i + 1).drop_last() =~= all.take(i as int));
        assert(all.take(i + 1).last() == items@[i as int]@);
        match path_read_by(&items[i]) {
            Some(p) => {
                if !holds_text(&out, p.as_str()) {
                    out.push(copy_str(p.as_str()));
                }
            },
            None => {},
        }
        i = i + 1;
    }
    assert(all.take(all.len() as int) =~= all);
    out
}

fn collect_reads(items: &[SessionItem], path: &str) -> (out: Vec<ToolUseItem>)
    ensures
        use_models(out@) == reads_of(item_models(items@), path@),
{
    let ghost all = item_models(items@);
    let mut out: Vec<ToolUseItem> = Vec::new();
    let mut i: usize = 0;
    assert(all.take(0) =~= seq![]);
    assert(use_models(out@) =~= reads_of(all.take(0), path@));
    while i < items.len()
        invariant
            i <= items@.len(),
            all == item_models(items@),
            use_models(out@) == reads_of(all.take(i as int), path@),
        decreases items.len() - i,
    {
        assert(all.take(i + 1).drop_last() =~= all.take(i as int));
        assert(all.take(i + 1).last() == items@[i as int]@);
        match path_read_by(&items[i]) {
            Some(p) => {
                if same_text(p.as_str(), path) {
                    match &items[i] {
                        SessionItem::ToolUse(u) => {
                            let c = copy_use(u);
                            assert(use_models(out@.push(c)) =~= use_models(out@).push(c@));
                            out.push(c);
                        },
                        SessionItem::ToolResult(_) => {},
                    }
                }
            },
            None => {},
        }
        i = i + 1;
    }
    assert(all.take(all.len() as int) =~= all);
    out
}

fn line_keys_of_uses(uses: &Vec<ToolUseItem>) -> (keys: Vec<u128>)
    ensures
        signed_keys(keys@, false) == Seq::new(
            use_models(uses@).len(),
            |i: int| use_models(uses@)[i].line,
        ),
{
    let mut keys: Vec<u128> = Vec::new();
    let mut i: usize = 0;
    while i < uses.len()
        invariant
            i <= uses@.len(),
            keys@.len() == i,
            forall|j: int| 0 <= j < i ==> #[trigger] keys@[j] == uses@[j].line_index,
        decreases uses.len() - i,
    {
        keys.push(uses[i].line_index as u128);
        i = i + 1;
    }
    assert(signed_keys(keys@, false) =~= Seq::new(
        use_models(uses@).len(),
        |i: int| use_models(uses@)[i].line,
    ));
    keys
}

fn line_keys_of_results(results: &Vec<ToolResultItem>) -> (keys: Vec<u128>)
    ensures
        signed_keys(keys@, false) == Seq::new(
            result_models(results@).len(),
            |i: int| result_models(results@)[i].line,
        ),
{
    let mut keys: Vec<u128> = Vec::new();
    let mut i: usize = 0;
    while i < results.len()
        invariant
            i <= results@.len(),
            keys@.len() == i,
            forall|j: int| 0 <= j < i ==> #[trigger] keys@[j] == results@[j].line_index,
        decreases results.len() - i,
    {
        keys.push(results[i].line_index as u128);
        i = i + 1;
    }
    assert(signed_keys(keys@, false) =~= Seq::new(
        result_models(results@).len(),
        |i: int| result_models(results@)[i].line,
    ));
    keys
}

fn read_candidate(items: &[SessionItem], path: &str, read: &ToolUseItem) -> (r: Option<
    PruneCandidate,
>)
    ensures
        r is Some <==> stale_read(item_models(items@), path@, read@) is Some,
        r matches Some(c) ==> stale_read(item_models(items@), path@, read@) == Some(c@),
{
    match find_result(items, read.id.as_str()) {
        Some(result) => {
            let mut reason = copy_str("older Read of ");
            reason.append(path);
            reason.append(" superseded by a later Read of the same path");
            Some(
                PruneCandidate {
                    line_index: result.line_index,
                    tool_use_id: copy_str(read.id.as_str()),
                    rule: "dedupe_latest_read",
                    reason,
                    bytes: bytes_in(result.content.as_str()),
                },
            )
        },
        None => None,
    }
}

fn add_stale_reads(items: &[SessionItem], path: &str, out: &mut Vec<PruneCandidate>)
    ensures
        candidate_models(final(out)@) == candidate_models(old(out)@) + stale_reads(
            item_models(items@),
            path@,
            all_but_last(uses_by_line(reads_of(item_models(items@), path@))),
        ),
{
    let ghost all = item_models(items@);
    let ghost before = candidate_models(out@);
    let reads = collect_reads(items, path);
    let keys = line_keys_of_uses(&reads);
    let order = order_by(&keys, false);
    let ghost sorted = uses_by_line(use_models(reads@));
    let ghost older = all_but_last(sorted);
    assert(keys@.len() == signed_keys(keys@, false).len());
    assert(sorted.len() == order@.len());
    assert(older.take(0) =~= seq![]);
    assert(before + seq![] =~= before);
    let total: usize = order.len();
    let mut i: usize = 0;
    while i + 1 < total
        invariant
            total == order@.len(),
            all == item_models(items@),
            order@.len() == keys@.len() == reads@.len(),
            ints(order@) == stable_order(signed_keys(keys@, false)),
            distinct_below(ints(order@), keys@.len() as int),
            signed_keys(keys@, false) == Seq::new(
                use_models(reads@).len(),
                |i: int| use_models(reads@)[i].line,
            ),
            sorted == uses_by_line(use_models(reads@)),
            sorted.len() == order@.len(),
            older == all_but_last(sorted),
            order@.len() > 0 ==> i <= order@.len() - 1,
            order@.len() == 0 ==> i == 0,
            candidate_models(out@) == before + stale_reads(all, path@, older.take(i as int)),
        decreases total - i,
    {
        assert(older.take(i + 1).drop_last() =~= older.take(i as int));
        assert(ints(order@)[i as int] == order@[i as int] as int);
        let at = order[i];
        let ghost have = out@;
        let ghost so_far = stale_reads(all, path@, older.take(i as int));
        assert(older.take(i + 1).last() == reads@[at as int]@);
        match read_candidate(items, path, &reads[at]) {
            Some(c) => {
                proof {
                    lemma_candidates_push(have, c);
                }
                assert((before + so_far).push(c@) =~= before + so_far.push(c@));
                out.push(c);
            },
            None => {},
        }
        i = i + 1;
    }
    assert(older.take(older.len() as int) =~= older);
}

/// The results of all reads of a file but the last. The paths come in the order in which they
/// are first read.
pub fn dedupe_latest_read(items: &[SessionItem]) -> (out: Vec<PruneCandidate>)
    ensures
        candidate_models(out@) == latest_read_candidates(item_models(items@)),
{
    let ghost all = item_models(items@);
    let paths = collect_read_paths(items);
    let ghost names = views(paths@);
    let mut out: Vec<PruneCandidate> = Vec::new();
    let mut i: usize = 0;
    assert(names.take(0) =~= seq![]);
    assert(candidate_models(out@) =~= stale_reads_of(all, names.take(0)));
    while i < paths.len()
        invariant
            i <= paths@.len(),
            all == item_models(items@),
            names == views(paths@),
            candidate_models(out@) == stale_reads_of(all, names.take(i as int)),
        decreases paths.len() - i,
    {
        assert(names.take(i + 1).drop_last() =~= names.take(i as int));
        assert(names.take(i + 1).last() == paths@[i as int]@);
        add_stale_reads(items, paths[i].as_str(), &mut out);
        i = i + 1;
    }
    assert(names.take(names.len() as int) =~= names);
    out
}

/// Some item reads the path on a line after the given one.
pub open spec fn read_after(items: Seq<ItemModel>, path: Seq<char>, line: int) -> bool {
    exists|i: int|
        0 <= i < items.len() && path_read(#[trigger] items[i]) == Some(path)
            && items[i]->Use_0.line > line
}

/// The result of a write that a later read of the same path covers.
pub open spec fn covered_write(items: Seq<ItemModel>, item: ItemModel) -> Option<CandidateModel> {
    match item {
        ItemModel::Use(u) => match (u.path, result_of(items, u.id)) {
            (Some(path), Some(r)) if (u.name == "Write"@ || u.name == "Edit"@) && read_after(
                items,
                path,
                u.line,
            ) => Some(
                CandidateModel {
                    line: r.line,
                    id: u.id,
                    rule: "supersede_write_by_read"@,
                    reason: u.name + " of "@ + path + " verified by a later Read"@,
                    bytes: byte_len(r.content),
                },
            ),
            _ => None,
        },
        ItemModel::Result(_) => None,
    }
}

/// The results of the writes among the given items that a later read covers.
pub open spec fn covered_writes(items: Seq<ItemModel>, upto: Seq<ItemModel>) -> Seq<CandidateModel>
    decreases upto.len(),
{
    if upto.len() == 0 {
        seq![]
    } else {
        with_option(covered_writes(items, upto.drop_last()), covered_write(items, upto.last()))
    }
}

fn is_read_after(items: &[SessionItem], path: &str, line: usize) -> (b: bool)
    ensures
        b == read_after(item_models(items@), path@, line as int),
{
    let ghost all = item_models(items@);
    let mut i: usize = 0;
    while i < items.len()
        invariant
            i <= items@.len(),
            all == item_models(items@),
            forall|j: int|
                0 <= j < i ==> !(path_read(#[trigger] all[j]) == Some(path@)
                    && all[j]->Use_0.line > line),
        decreases items.len() - i,
    {
        assert(all[i as int] == items@[i as int]@);
        match path_read_by(&items[i]) {
            Some(p) => {
                if same_text(p.as_str(), path) {
                    match &items[i] {
                        SessionItem::ToolUse(u) => {
                            if u.line_index > line {
                                return true;
                            }
                        },
                        SessionItem::ToolResult(_) => {},
                    }
                }
            },
            None => {},
        }
        i = i + 1;
    }
    false
}

fn write_candidate(items: &[SessionItem], item: &SessionItem) -> (r: Option<PruneCandidate>)
    ensures
        r is Some <==> covered_write(item_models(items@), item@) is Some,
        r matches Some(c) ==> covered_write(item_models(items@), item@) == Some(c@),
{
    let u = match item {
        SessionItem::ToolUse(u) => u,
        SessionItem::ToolResult(_) => {
            return None;
        },
    };
    let path = match &u.path {
        Some(p) => p,
        None => {
            return None;
        },
    };
    if !same_text(u.name.as_str(), "Write") && !same_text(u.name.as_str(), "Edit") {
        return None;
    }
    if !is_read_after(items, path.as_str(), u.line_index) {
        return None;
    }
    match find_result(items, u.id.as_str()) {
        Some(result) => {
            let mut reason = copy_str(u.name.as_str());
            reason.append(" of ");
            reason.append(path.as_str());
            reason.append(" verified by a later Read");
            Some(
                PruneCandidate {
                    line_index: result.line_index,
                    tool_use_id: copy_str(u.id.as_str()),
                    rule: "supersede_write_by_read",
                    reason,
                    bytes: bytes_in(result.content.as_str()),
                },
            )
        },
        None => None,
    }
}

/// The results of writes and edits of a path that is read again later.
pub fn supersede_write_by_read(items: &[SessionItem]) -> (out: Vec<PruneCandidate>)
    ensures
        candidate_models(out@) == covered_writes(item_models(items@), item_models(items@)),
{
    let ghost all = item_models(items@);
    let mut out: Vec<PruneCandidate> = Vec::new();
    let mut i: usize = 0;
    assert(all.take(0) =~= seq![]);
    assert(candidate_models(out@) =~= covered_writes(all, all.take(0)));
    while i < items.len()
        invariant
            i <= items@.len(),
            all == item_models(items@),
            candidate_models(out@) == covered_writes(all, all.take(i as int)),
        decreases items.len() - i,
    {
        assert(all.take(i + 1).drop_last() =~= all.take(i as int));
        assert(all.take(i + 1).last() == items@[i as int]@);
        match write_candidate(items, &items[i]) {
            Some(c) => {
                proof {
                    lemma_candidates_push(out@, c);
                }
                out.push(c);
            },
            None => {},
        }
        i = i + 1;
    }
    assert(all.take(all.len() as int) =~= all);
    out
}

/// The results that are errors, in order.
pub open spec fn errors_in(items: Seq<ItemModel>) -> Seq<ResultModel>
    decreases items.len(),
{
    if items.len() == 0 {
        seq![]
    } else {
        let errors = errors_in(items.drop_last());
        match items.last() {
            ItemModel::Result(r) if r.is_error => errors.push(r),
            _ => errors,
        }
    }
}

/// The name of the tool that was called.
pub open spec fn tool_name(items: Seq<ItemModel>, id: Seq<char>) -> Seq<char> {
    match use_of(items, id) {
        Some(u) => u.name,
        None => seq![],
    }
}

pub open spec fn same_error(items: Seq<ItemModel>, a: ResultModel, b: ResultModel) -> bool {
    tool_name(items, a.id) == tool_name(items, b.id) && a.content == b.content
}

/// The error where one of the earlier ones is the same error of the same tool.
pub open spec fn repeated_error(
    items: Seq<ItemModel>,
    earlier: Seq<ResultModel>,
    r: ResultModel,
) -> Option<CandidateModel> {
    if exists|j: int| 0 <= j < earlier.len() && same_error(items, #[trigger] earlier[j], r) {
        Some(
            CandidateModel {
                line: r.line,
                id: r.id,
                rule: "drop_redundant_errors"@,
                reason: "identical "@ + tool_name(items, r.id)
                    + " error already seen earlier in the session"@,
                bytes: byte_len(r.content),
            },
        )
    } else {
        None
    }
}

pub open spec fn repeated_errors(items: Seq<ItemModel>, errors: Seq<ResultModel>) -> Seq<
    CandidateModel,
>
    decreases errors.len(),
{
    if errors.len() == 0 {
        seq![]
    } else {
        with_option(
            repeated_errors(items, errors.drop_last()),
            repeated_error(items, errors.drop_last(), errors.last()),
        )
    }
}

pub open spec fn redundant_error_candidates(items: Seq<ItemModel>) -> Seq<CandidateModel> {
    repeated_errors(items, results_by_line(errors_in(items)))
}

fn collect_errors(items: &[SessionItem]) -> (out: Vec<ToolResultItem>)
    ensures
        result_models(out@) == errors_in(item_models(items@)),
{
    let ghost all = item_models(items@);
    let mut out: Vec<ToolResultItem> = Vec::new();
    let mut i: usize = 0;
    assert(all.take(0) =~= seq![]);
    assert(result_models(out@) =~= errors_in(all.take(0)));
    while i < items.len()
        invariant
            i <= items@.len(),
            all == item_models(items@),
            result_models(out@) == errors_in(all.take(i as int)),
        decreases items.len() - i,
    {
        assert(all.take(i + 1).drop_last() =~= all.take(i as int));
        assert(all.take(i + 1).last() == items@[i as int]@);
        match &items[i] {
            SessionItem::ToolResult(r) => {
                if r.is_error {
                    let c = copy_result(r);
                    assert(result_models(out@.push(c)) =~= result_models(out@).push(c@));
                    out.push(c);
                }
            },
            SessionItem::ToolUse(_) => {},
        }
        i = i + 1;
    }
    assert(all.take(all.len() as int) =~= all);
    out
}

fn sort_results(results: &Vec<ToolResultItem>) -> (out: Vec<ToolResultItem>)
    ensures
        result_models(out@) == results_by_line(result_models(results@)),
{
    let keys = line_keys_of_results(results);
    let order = order_by(&keys, false);
    let ghost sorted = results_by_line(result_models(results@));
    assert(keys@.len() == signed_keys(keys@, false).len());
    let mut out: Vec<ToolResultItem> = Vec::new();
    let mut i: usize = 0;
    while i < order.len()
        invariant
            i <= order@.len(),
            out@.len() == i,
            order@.len() == keys@.len() == results@.len(),
            ints(order@) == stable_order(signed_keys(keys@, false)),
            distinct_below(ints(order@), keys@.len() as int),
            signed_keys(keys@, false) == Seq::new(
                result_models(results@).len(),
                |i: int| result_models(results@)[i].line,
            ),
            sorted == results_by_line(result_models(results@)),
            sorted.len() == order@.len(),
            forall|j: int| 0 <= j < i ==> (#[trigger] out@[j])@ == sorted[j],
        decreases order.len() - i,
    {
        assert(ints(order@)[i as int] == order@[i as int] as int);
        let at = order[i];
        let c = copy_result(&results[at]);
        assert(c@ == sorted[i as int]);
        out.push(c);
        i = i + 1;
    }
    assert(result_models(out@) =~= sorted);
    out
}

fn name_of_tool(items: &[SessionItem], id: &str) -> (name: String)
    ensures
        name@ == tool_name(item_models(items@), id@),
{
    match find_use(items, id) {
        Some(u) => copy_str(u.name.as_str()),
        None => String::new(),
    }
}

fn seen_before(
    errors: &Vec<ToolResultItem>,
    names: &Vec<String>,
    at: usize,
    Ghost(items): Ghost<Seq<ItemModel>>,
) -> (b: bool)
    requires
        at < errors@.len() == names@.len(),
        forall|j: int|
            0 <= j < errors@.len() ==> (#[trigger] names@[j])@ == tool_name(
                items,
                errors@[j].tool_use_id@,
            ),
    ensures
        b == exists|j: int|
            0 <= j < at && same_error(
                items,
                #[trigger] result_models(errors@)[j],
                result_models(errors@)[at as int],
            ),
{
    let ghost all = result_models(errors@);
    let mut j: usize = 0;
    while j < at
        invariant
            j <= at < errors@.len() == names@.len(),
            all == result_models(errors@),
            forall|j: int|
                0 <= j < errors@.len() ==> (#[trigger] names@[j])@ == tool_name(
                    items,
                    errors@[j].tool_use_id@,
                ),
            forall|k: int| 0 <= k < j ==> !same_error(items, #[trigger] all[k], all[at as int]),
        decreases at - j,
    {
        assert(all[j as int] == errors@[j as int]@);
        assert(all[at as int] == errors@[at as int]@);
        assert(names@[j as int]@ == tool_name(items, errors@[j as int].tool_use_id@));
        assert(names@[at as int]@ == tool_name(items, errors@[at as int].tool_use_id@));
        if same_text(names[j].as_str(), names[at].as_str()) && same_text(
            errors[j].content.as_str(),
            errors[at].content.as_str(),
        ) {
            assert(same_error(items, all[j as int], all[at as int]));
            return true;
        }
        j = j + 1;
    }
    false
}

fn names_of_tools(items: &[SessionItem], errors: &Vec<ToolResultItem>) -> (names: Vec<String>)
    ensures
        names@.len() == errors@.len(),
        forall|j: int|
            0 <= j < errors@.len() ==> (#[trigger] names@[j])@ == tool_name(
                item_models(items@),
                errors@[j].tool_use_id@,
            ),
{
    let mut names: Vec<String> = Vec::new();
    let mut i: usize = 0;
    while i < errors.len()
        invariant
            i <= errors@.len(),
            names@.len() == i,
            forall|j: int|
                0 <= j < i ==> (#[trigger] names@[j])@ == tool_name(
                    item_models(items@),
                    errors@[j].tool_use_id@,
                ),
        decreases errors.len() - i,
    {
        names.push(name_of_tool(items, errors[i].tool_use_id.as_str()));
        i = i + 1;
    }
    names
}

/// The errors that repeat an earlier error of the same tool word for word.
pub fn drop_redundant_errors(items: &[SessionItem]) -> (out: Vec<PruneCandidate>)
    ensures
        candidate_models(out@) == redundant_error_candidates(item_models(items@)),
{
    let ghost all = item_models(items@);
    let unsorted = collect_errors(items);
    let errors = sort_results(&unsorted);
    let names = names_of_tools(items, &errors);
    let ghost found = result_models(errors@);
    let mut out: Vec<PruneCandidate> = Vec::new();
    let mut i: usize = 0;
    assert(found.take(0) =~= seq![]);
    assert(candidate_models(out@) =~= repeated_errors(all, found.take(0)));
    while i < errors.len()
        invariant
            i <= errors@.len() == names@.len(),
            all == item_models(items@),
            found == result_models(errors@),
            forall|j: int|
                0 <= j < errors@.len() ==> (#[trigger] names@[j])@ == tool_name(
                    all,
                    errors@[j].tool_use_id@,
                ),
            candidate_models(out@) == repeated_errors(all, found.take(i as int)),
        decreases errors.len() - i,
    {
        let ghost earlier = found.take(i as int);
        assert(found.take(i + 1).drop_last() =~= earlier);
        let r = &errors[i];
        assert(found.take(i + 1).last() == r@);
        let repeated = seen_before(&errors, &names, i, Ghost(all));
        proof {
            assert forall|j: int| 0 <= j < i implies #[trigger] earlier[j] == found[j] by {}
            if repeated {
                let j = choose|j: int|
                    0 <= j < i && same_error(all, #[trigger] found[j], found[i as int]);
                assert(same_error(all, earlier[j], r@));
            } else if exists|j: int|
                0 <= j < earlier.len() && same_error(all, #[trigger] earlier[j], r@) {
                let j = choose|j: int|
                    0 <= j < earlier.len() && same_error(all, #[trigger] earlier[j], r@);
                assert(same_error(all, found[j], found[i as int]));
            }
        }
        if repeated {
            assert(names@[i as int]@ == tool_name(all, errors@[i as int].tool_use_id@));
            let mut reason = copy_str("identical ");
            reason.append(names[i].as_str());
            reason.append(" error already seen earlier in the session");
            let c = PruneCandidate {
                line_index: r.line_index,
                tool_use_id: copy_str(r.tool_use_id.as_str()),
                rule: "drop_redundant_errors",
                reason,
                bytes: bytes_in(r.content.as_str()),
            };
            assert(repeated_error(all, earlier, r@) == Some(c@));
            proof {
                lemma_candidates_push(out@, c);
            }
            out.push(c);
        }
        i = i + 1;
    }
    assert(found.take(found.len() as int) =~= found);
    out
}

/// A large result that stands more than the window before the end.
pub open spec fn old_large(
    item: ItemModel,
    index: int,
    total: int,
    min_bytes: int,
    window: int,
) -> Option<CandidateModel> {
    match item {
        ItemModel::Result(r) if byte_len(r.content) > min_bytes && index + window < total => Some(
            CandidateModel {
                line: r.line,
                id: r.id,
                rule: "prune_old_large_outputs"@,
                reason: dec(byte_len(r.content)) + " bytes, outside the last "@ + dec(window as nat)
                    + " items"@,
                bytes: byte_len(r.content),
            },
        ),
        _ => None,
    }
}

/// The large results among the given first items of a session of so many items.
pub open spec fn old_large_outputs(
    upto: Seq<ItemModel>,
    total: int,
    min_bytes: int,
    window: int,
) -> Seq<CandidateModel>
    decreases upto.len(),
{
    if upto.len() == 0 {
        seq![]
    } else {
        with_option(
            old_large_outputs(upto.drop_last(), total, min_bytes, window),
            old_large(upto.last(), upto.len() - 1, total, min_bytes, window),
        )
    }
}

fn large_candidate(
    item: &SessionItem,
    index: usize,
    total: usize,
    min_bytes: usize,
    window: usize,
) -> (r: Option<PruneCandidate>)
    requires
        index < total,
    ensures
        r is Some <==> old_large(
            item@,
            index as int,
            total as int,
            min_bytes as int,
            window as int,
        ) is Some,
        r matches Some(c) ==> old_large(
            item@,
            index as int,
            total as int,
            min_bytes as int,
            window as int,
        ) == Some(c@),
{
    match item {
        SessionItem::ToolResult(r) => {
            let bytes = bytes_in(r.content.as_str());
            if bytes > min_bytes && window < total - index {
                let mut reason = decimal_usize(bytes);
                reason.append(" bytes, outside the last ");
                let items_kept = decimal_usize(window);
                reason.append(items_kept.as_str());
                reason.append(" items");
                Some(
                    PruneCandidate {
                        line_index: r.line_index,
                        tool_use_id: copy_str(r.tool_use_id.as_str()),
                        rule: "prune_old_large_outputs",
                        reason,
                        bytes,
                    },
                )
            } else {
                None
            }
        },
        SessionItem::ToolUse(_) => None,
    }
}

/// The results of more than so many bytes outside the last items of the session.
pub fn prune_old_large_outputs(items: &[SessionItem], min_bytes: usize, window: usize) -> (out: Vec<
    PruneCandidate,
>)
    ensures
        candidate_models(out@) == old_large_outputs(
            item_models(items@),
            items@.len() as int,
            min_bytes as int,
            window as int,
        ),
{
    let ghost all = item_models(items@);
    let total = items.len();
    let mut out: Vec<PruneCandidate> = Vec::new();
    let mut i: usize = 0;
    assert(all.take(0) =~= seq![]);
    assert(candidate_models(out@) =~= seq![]);
    while i < total
        invariant
            i <= total == items@.len(),
            all == item_models(items@),
            candidate_models(out@) == old_large_outputs(
                all.take(i as int),
                total as int,
                min_bytes as int,
                window as int,
            ),
        decreases total - i,
    {
        assert(all.take(i + 1).drop_last() =~= all.take(i as int));
        assert(all.take(i + 1).last() == items@[i as int]@);
        match large_candidate(&items[i], i, total, min_bytes, window) {
            Some(c) => {
                proof {
                    lemma_candidates_push(out@, c);
                }
                out.push(c);
            },
            None => {},
        }
        i = i + 1;
    }
    assert(all.take(all.len() as int) =~= all);
    out
}

/// The results that announce a task started in the background, in order.
pub open spec fn launches_in(items: Seq<ItemModel>) -> Seq<ResultModel>
    decreases items.len(),
{
    if items.len() == 0 {
        seq![]
    } else {
        let launches = launches_in(items.drop_last());
        match items.last() {
            ItemModel::Result(r) if contains_text(
                r.content,
                "running in background with ID:"@,
            ) => launches.push(r),
            _ => launches,
        }
    }
}

pub open spec fn old_launch(r: ResultModel) -> CandidateModel {
    CandidateModel {
        line: r.line,
        id: r.id,
        rule: "collapse_task_launches"@,
        reason: "an earlier background-task-launch notice superseded by a later one"@,
        bytes: byte_len(r.content),
    }
}

/// All announcements of background tasks but the last.
pub open spec fn launch_candidates(items: Seq<ItemModel>) -> Seq<CandidateModel> {
    all_but_last(results_by_line(launches_in(items))).map_values(|r: ResultModel| old_launch(r))
}

fn collect_launches(items: &[SessionItem]) -> (out: Vec<ToolResultItem>)
    ensures
        result_models(out@) == launches_in(item_models(items@)),
{
    let ghost all = item_models(items@);
    let mut out: Vec<ToolResultItem> = Vec::new();
    let mut i: usize = 0;
    assert(all.take(0) =~= seq![]);
    assert(result_models(out@) =~= launches_in(all.take(0)));
    while i < items.len()
        invariant
            i <= items@.len(),
            all == item_models(items@),
            result_models(out@) == launches_in(all.take(i as int)),
        decreases items.len() - i,
    {
        assert(all.take(i + 1).drop_last() =~= all.take(i as int));
        assert(all.take(i + 1).last() == items@[i as int]@);
        match &items[i] {
            SessionItem::ToolResult(r) => {
                if text_contains(r.content.as_str(), "running in background with ID:") {
                    let c = copy_result(r);
                    assert(result_models(out@.push(c)) =~= result_models(out@).push(c@));
                    out.push(c);
                }
            },
            SessionItem::ToolUse(_) => {},
        }
        i = i + 1;
    }
    assert(all.take(all.len() as int) =~= all);
    out
}

/// The announcements of background tasks but for the latest.
pub fn collapse_task_launches(items: &[SessionItem]) -> (out: Vec<PruneCandidate>)
    ensures
        candidate_models(out@) == launch_candidates(item_models(items@)),
{
    let unsorted = collect_launches(items);
    let launches = sort_results(&unsorted);
    let ghost all = result_models(launches@);
    let mut out: Vec<PruneCandidate> = Vec::new();
    let total: usize = launches.len();
    let mut i: usize = 0;
    while i + 1 < total
        invariant
            total == launches@.len(),
            all == result_models(launches@),
            launches@.len() > 0 ==> i <= launches@.len() - 1,
            launches@.len() == 0 ==> i == 0,
            out@.len() == i,
            forall|j: int| 0 <= j < i ==> (#[trigger] out@[j])@ == old_launch(all[j]),
        decreases total - i,
    {
        let r = &launches[i];
        assert(all[i as int] == r@);
        let c = PruneCandidate {
            line_index: r.line_index,
            tool_use_id: copy_str(r.tool_use_id.as_str()),
            rule: "collapse_task_launches",
            reason: copy_str("an earlier background-task-launch notice superseded by a later one"),
            bytes: bytes_in(r.content.as_str()),
        };
        out.push(c);
        i = i + 1;
    }
    assert(candidate_models(out@) =~= launch_candidates(item_models(items@)));
    out
}

/// What all rules find, one rule after the other.
pub open spec fn all_candidates(
    items: Seq<ItemModel>,
    include_rule_2: bool,
    min_bytes: int,
    window: int,
) -> Seq<CandidateModel> {
    latest_read_candidates(items) + (if include_rule_2 {
        covered_writes(items, items)
    } else {
        seq![]
    }) + redundant_error_candidates(items) + old_large_outputs(
        items,
        items.len() as int,
        min_bytes,
        window,
    ) + launch_candidates(items)
}

fn add_candidates(out: &mut Vec<PruneCandidate>, more: Vec<PruneCandidate>)
    ensures
        candidate_models(final(out)@) == candidate_models(old(out)@) + candidate_models(more@),
{
    let mut more = more;
    let ghost before = out@;
    let ghost added = more@;
    out.append(&mut more);
    assert(out@ == before + added);
    assert(candidate_models(out@) =~= candidate_models(before) + candidate_models(added));
}

/// The candidates of all rules. The rule on writes is off unless asked for: of the rules it is
/// the one that most often removes what is still needed.
pub fn run(items: &[SessionItem], include_rule_2: bool, min_bytes: usize, window: usize) -> (out:
    Vec<PruneCandidate>)
    ensures
        candidate_models(out@) == all_candidates(
            item_models(items@),
            include_rule_2,
            min_bytes as int,
            window as int,
        ),
{
    let ghost all = item_models(items@);
    let mut out = dedupe_latest_read(items);
    if include_rule_2 {
        add_candidates(&mut out, supersede_write_by_read(items));
    }
    assert(candidate_models(out@) =~= latest_read_candidates(all) + (if include_rule_2 {
        covered_writes(all, all)
    } else {
        seq![]
    }));
    add_candidates(&mut out, drop_redundant_errors(items));
    add_candidates(&mut out, prune_old_large_outputs(items, min_bytes, window));
    add_candidates(&mut out, collapse_task_launches(items));
    out
}

/// The candidate with an id; the last one where there are several.
pub open spec fn candidate_for(candidates: Seq<CandidateModel>, id: Seq<char>) -> Option<
    CandidateModel,
>
    decreases candidates.len(),
{
    if candidates.len() == 0 {
        None
    } else if candidates.last().id == id {
        Some(candidates.last())
    } else {
        candidate_for(candidates.drop_last(), id)
    }
}

/// The line holds the id of some candidate.
pub open spec fn mentions(line: Seq<char>, candidates: Seq<CandidateModel>) -> bool {
    exists|i: int|
        0 <= i < candidates.len() && contains_text(line, (#[trigger] candidates[i]).id)
}

/// What stands in place of a removed result.
pub open spec fn removal_note(c: CandidateModel) -> Seq<char> {
    "[... squishi session_prune: "@ + c.rule + " removed, "@ + dec(c.bytes) + " bytes ...]"@
}

/// The block without its content, where it is the result of a candidate.
pub open spec fn pruned_block(block: JsonModel, candidates: Seq<CandidateModel>) -> Option<
    JsonModel,
> {
    match (block, block.get_text("tool_use_id"@)) {
        (JsonModel::Object(fields), Some(id)) if block.get_text("type"@) == Some("tool_result"@)
            && candidate_for(candidates, id) is Some => Some(
            JsonModel::Object(
                with_field(
                    fields,
                    "content"@,
                    JsonModel::Text(removal_note(candidate_for(candidates, id)->0)),
                ),
            ),
        ),
        _ => None,
    }
}

pub open spec fn pruned_blocks(blocks: Seq<JsonModel>, candidates: Seq<CandidateModel>) -> Seq<
    JsonModel,
> {
    blocks.map_values(
        |b: JsonModel|
            match pruned_block(b, candidates) {
                Some(p) => p,
                None => b,
            },
    )
}

pub open spec fn some_pruned(blocks: Seq<JsonModel>, candidates: Seq<CandidateModel>) -> bool {
    exists|i: int|
        0 <= i < blocks.len() && pruned_block(#[trigger] blocks[i], candidates) is Some
}

/// The record with the results of candidates removed, where it holds some.
pub open spec fn pruned_record(record: JsonModel, candidates: Seq<CandidateModel>) -> Option<
    JsonModel,
> {
    match (record, record.get("message"@), message_blocks(record)) {
        (JsonModel::Object(fields), Some(JsonModel::Object(message)), Some(blocks)) if some_pruned(
            blocks,
            candidates,
        ) => Some(
            JsonModel::Object(
                with_field(
                    fields,
                    "message"@,
                    JsonModel::Object(
                        with_field(
                            message,
                            "content"@,
                            JsonModel::Array(pruned_blocks(blocks, candidates)),
                        ),
                    ),
                ),
            ),
        ),
        _ => None,
    }
}

/// The record that is written in place of a line, where the line holds the result of a candidate.
pub open spec fn rewritten_record(line: Seq<char>, candidates: Seq<CandidateModel>) -> Option<
    JsonModel,
> {
    if trim(line).len() == 0 || !mentions(line, candidates) {
        None
    } else {
        match json_parse(line) {
            Some(record) => pruned_record(record, candidates),
            None => None,
        }
    }
}

/// A line of the transcript: as it was, unless it holds the result of a candidate.
pub open spec fn pruned_line(line: Seq<char>, candidates: Seq<CandidateModel>) -> Seq<char> {
    match rewritten_record(line, candidates) {
        Some(r) => json_text(r),
        None => line,
    }
}

/// A line that is rewritten stays one line and reads as the record without the results, but for the
/// digits of fractions.
pub open spec fn line_reads_back(line: Seq<char>, candidates: Seq<CandidateModel>) -> bool {
    rewritten_record(line, candidates) matches Some(r) ==> {
        let p = pruned_line(line, candidates);
        &&& json_parse(trim(line)) == json_parse(line)
        &&& one_line(p)
        &&& reads_back(r, MAX_DEPTH as int) ==> json_parse(p) == Some(r)
        &&& no_raw_names(r) ==> (json_parse(p) matches Some(m) ==> same_but_fractions(r, m))
    }
}

/// Every line that is rewritten can be read: no fraction in it is close to the largest, and no field
/// has the name that raw values are read by.
pub open spec fn all_readable(lines: Seq<Seq<char>>, candidates: Seq<CandidateModel>) -> bool {
    forall|i: int|
        0 <= i < lines.len() ==> (rewritten_record(#[trigger] lines[i], candidates) matches Some(r)
            ==> no_raw_names(r) && json_parse(pruned_line(lines[i], candidates)) is Some)
}

pub open spec fn pruned_lines(lines: Seq<Seq<char>>, candidates: Seq<CandidateModel>) -> Seq<
    Seq<char>,
> {
    lines.map_values(|l: Seq<char>| pruned_line(l, candidates))
}

/// The transcript with each line pruned, and each followed by the very break that followed it.
pub open spec fn pruned_text(s: Seq<char>, candidates: Seq<CandidateModel>) -> Seq<char>
    decreases s.len(),
    via pruned_text_decreases
{
    if s.len() == 0 {
        seq![]
    } else {
        let k = index_of(s, '\n');
        if k == s.len() {
            pruned_line(s, candidates)
        } else {
            let line = strip_cr(s.take(k));
            pruned_line(line, candidates) + s.subrange(line.len() as int, k + 1) + pruned_text(
                s.skip(k + 1),
                candidates,
            )
        }
    }
}

#[via_fn]
proof fn pruned_text_decreases(s: Seq<char>, candidates: Seq<CandidateModel>) {
    lemma_index_of(s, '\n');
}

/// The index of the line that an item stands in.
pub open spec fn line_of(item: ItemModel) -> int {
    match item {
        ItemModel::Use(u) => u.line,
        ItemModel::Result(r) => r.line,
    }
}

/// The result of a candidate.
pub open spec fn is_flagged(item: ItemModel, candidates: Seq<CandidateModel>) -> bool {
    item matches ItemModel::Result(r) && candidate_for(candidates, r.id) is Some
}

/// The item, with the note as its content where it is the result of a candidate.
pub open spec fn noted(item: ItemModel, candidates: Seq<CandidateModel>) -> ItemModel {
    match item {
        ItemModel::Result(r) => match candidate_for(candidates, r.id) {
            Some(c) => ItemModel::Result(ResultModel { content: removal_note(c), ..r }),
            None => item,
        },
        ItemModel::Use(_) => item,
    }
}

/// What becomes of an item. A result is left alone where its line has the ids of all candidates only in
/// an escaped form.
pub open spec fn pruned_item(
    item: ItemModel,
    lines: Seq<Seq<char>>,
    candidates: Seq<CandidateModel>,
) -> ItemModel {
    if mentions(lines[line_of(item)], candidates) {
        noted(item, candidates)
    } else {
        item
    }
}

/// The items in their sequence, those of candidates with the note as their content.
pub open spec fn pruned_items(
    items: Seq<ItemModel>,
    lines: Seq<Seq<char>>,
    candidates: Seq<CandidateModel>,
) -> Seq<ItemModel> {
    items.map_values(|i: ItemModel| pruned_item(i, lines, candidates))
}

fn find_candidate<'a>(candidates: &'a [PruneCandidate], id: &str) -> (r: Option<&'a PruneCandidate>)
    ensures
        r is Some <==> candidate_for(candidate_models(candidates@), id@) is Some,
        r matches Some(c) ==> candidate_for(candidate_models(candidates@), id@) == Some(c@),
{
    let ghost all = candidate_models(candidates@);
    let mut i: usize = candidates.len();
    assert(all.take(i as int) =~= all);
    while i > 0
        invariant
            i <= candidates@.len(),
            all == candidate_models(candidates@),
            candidate_for(all, id@) == candidate_for(all.take(i as int), id@),
        decreases i,
    {
        assert(all.take(i as int).drop_last() =~= all.take(i - 1));
        assert(all.take(i as int).last() == candidates@[i - 1]@);
        i = i - 1;
        if same_text(candidates[i].tool_use_id.as_str(), id) {
            return Some(&candidates[i]);
        }
    }
    None
}

fn is_mentioned(line: &str, candidates: &[PruneCandidate]) -> (b: bool)
    ensures
        b == mentions(line@, candidate_models(candidates@)),
{
    let ghost all = candidate_models(candidates@);
    let mut i: usize = 0;
    while i < candidates.len()
        invariant
            i <= candidates@.len(),
            all == candidate_models(candidates@),
            forall|j: int| 0 <= j < i ==> !contains_text(line@, (#[trigger] all[j]).id),
        decreases candidates.len() - i,
    {
        assert(all[i as int] == candidates@[i as int]@);
        if text_contains(line, candidates[i].tool_use_id.as_str()) {
            return true;
        }
        i = i + 1;
    }
    false
}

fn prune_block(block: &Json, candidates: &[PruneCandidate]) -> (r: Option<Json>)
    ensures
        r is Some <==> pruned_block(block@, candidate_models(candidates@)) is Some,
        r matches Some(j) ==> pruned_block(block@, candidate_models(candidates@)) == Some(j@),
{
    broadcast use group_json_models;

    let is_result = match block.get_text("type") {
        Some(t) => same_text(t, "tool_result"),
        None => false,
    };
    if !is_result {
        return None;
    }
    let found = match block.get_text("tool_use_id") {
        Some(id) => find_candidate(candidates, id),
        None => None,
    };
    match found {
        Some(c) => {
            let mut note = copy_str("[... squishi session_prune: ");
            note.append(c.rule);
            note.append(" removed, ");
            let bytes = decimal_usize(c.bytes);
            note.append(bytes.as_str());
            note.append(" bytes ...]");
            assert(note@ =~= removal_note(c@));
            match block.copy() {
                Json::Object(fields) => {
                    let mut fields = fields;
                    assert(block@ == JsonModel::Object(field_models(fields@)));
                    set_field(&mut fields, copy_str("content"), Json::Text(note));
                    Some(Json::Object(fields))
                },
                _ => None,
            }
        },
        None => None,
    }
}

fn prune_blocks(blocks: &Vec<Json>, candidates: &[PruneCandidate]) -> (r: Option<Vec<Json>>)
    ensures
        r is Some <==> some_pruned(models(blocks@), candidate_models(candidates@)),
        r matches Some(v) ==> models(v@) == pruned_blocks(
            models(blocks@),
            candidate_models(candidates@),
        ),
{
    let ghost all = models(blocks@);
    let ghost names = candidate_models(candidates@);
    let mut out: Vec<Json> = Vec::new();
    let mut changed = false;
    let mut i: usize = 0;
    while i < blocks.len()
        invariant
            i <= blocks@.len(),
            all == models(blocks@),
            names == candidate_models(candidates@),
            out@.len() == i,
            forall|j: int|
                0 <= j < i ==> (#[trigger] out@[j])@ == pruned_blocks(all, names)[j],
            changed ==> some_pruned(all, names),
            !changed ==> forall|j: int|
                0 <= j < i ==> pruned_block(#[trigger] all[j], names) is None,
        decreases blocks.len() - i,
    {
        assert(all[i as int] == blocks@[i as int]@);
        match prune_block(&blocks[i], candidates) {
            Some(p) => {
                changed = true;
                out.push(p);
            },
            None => {
                out.push(blocks[i].copy());
            },
        }
        i = i + 1;
    }
    assert(models(out@) =~= pruned_blocks(all, names));
    if changed {
        Some(out)
    } else {
        None
    }
}

fn prune_record(record: Json, candidates: &[PruneCandidate]) -> (r: Option<Json>)
    ensures
        r is Some <==> pruned_record(record@, candidate_models(candidates@)) is Some,
        r matches Some(j) ==> pruned_record(record@, candidate_models(candidates@)) == Some(j@),
{
    broadcast use group_json_models;

    let blocks = match blocks_of(&record) {
        Some(blocks) => match prune_blocks(blocks, candidates) {
            Some(v) => v,
            None => {
                return None;
            },
        },
        None => {
            return None;
        },
    };
    let message: Json = match record.get("message") {
        Some(m) => m.copy(),
        None => {
            return None;
        },
    };
    match (record, message) {
        (Json::Object(fields), Json::Object(inner)) => {
            let mut fields = fields;
            let mut inner = inner;
            set_field(&mut inner, copy_str("content"), Json::Array(blocks));
            set_field(&mut fields, copy_str("message"), Json::Object(inner));
            Some(Json::Object(fields))
        },
        _ => None,
    }
}

proof fn lemma_well_formed_field(fields: Seq<(Seq<char>, JsonModel)>, key: Seq<char>)
    requires
        well_formed(JsonModel::Object(fields)),
        field(fields, key) is Some,
    ensures
        well_formed(field(fields, key)->0),
    decreases fields.len(),
{
    assert(well_formed(fields[0].1));
    if fields[0].0 != key {
        let rest = fields.drop_first();
        assert forall|i: int| 0 <= i < rest.len() implies well_formed((#[trigger] rest[i]).1) by {
            assert(rest[i] == fields[i + 1]);
        }
        assert forall|i: int, j: int| 0 <= i < j < rest.len() implies text_less(
            (#[trigger] rest[i]).0,
            (#[trigger] rest[j]).0,
        ) by {
            assert(rest[i] == fields[i + 1] && rest[j] == fields[j + 1]);
        }
        lemma_well_formed_field(rest, key);
    }
}

/// Pruning keeps a record well formed.
proof fn lemma_pruned_well_formed(record: JsonModel, candidates: Seq<CandidateModel>)
    requires
        well_formed(record),
        pruned_record(record, candidates) is Some,
    ensures
        well_formed(pruned_record(record, candidates)->0),
{
    let fields = record->Object_0;
    lemma_well_formed_field(fields, "message"@);
    let message = (record.get("message"@)->0)->Object_0;
    lemma_well_formed_field(message, "content"@);
    let blocks = message_blocks(record)->0;
    let new = pruned_blocks(blocks, candidates);
    assert(JsonModel::Array(blocks) == field(message, "content"@)->0);
    assert forall|i: int| 0 <= i < new.len() implies well_formed(#[trigger] new[i]) by {
        let block = blocks[i];
        assert(well_formed(block));
        if pruned_block(block, candidates) is Some {
            let id = block.get_text("tool_use_id"@)->0;
            lemma_with_field_well_formed(
                block->Object_0,
                "content"@,
                JsonModel::Text(removal_note(candidate_for(candidates, id)->0)),
            );
        }
    }
    assert(well_formed(JsonModel::Array(new)));
    lemma_with_field_well_formed(message, "content"@, JsonModel::Array(new));
    lemma_with_field_well_formed(
        fields,
        "message"@,
        JsonModel::Object(with_field(message, "content"@, JsonModel::Array(new))),
    );
}

fn prune_line(line: &str, candidates: &[PruneCandidate]) -> (out: String)
    ensures
        out@ == pruned_line(line@, candidate_models(candidates@)),
        line_reads_back(line@, candidate_models(candidates@)),
{
    let trimmed = trim_text(line);
    if is_empty_text(trimmed.as_str()) || !is_mentioned(line, candidates) {
        return copy_str(line);
    }
    match parse_json(line) {
        Some(record) => {
            let ghost names = candidate_models(candidates@);
            let ghost model = record@;
            match prune_record(record, candidates) {
                Some(r) => {
                    proof {
                        lemma_pruned_well_formed(model, names);
                    }
                    write_json(&r)
                },
                None => copy_str(line),
            }
        },
        None => copy_str(line),
    }
}

/// Breaks are where they were: the lines of the pruned transcript are its lines, pruned.
pub proof fn pruned_text_has_the_pruned_lines(s: Seq<char>, candidates: Seq<CandidateModel>)
    requires
        forall|i: int|
            0 <= i < split_lines(s).len() ==> line_reads_back(#[trigger] split_lines(s)[i], candidates),
    ensures
        split_lines(pruned_text(s, candidates)) == pruned_lines(split_lines(s), candidates),
    decreases s.len(),
{
    lemma_index_of(s, '\n');
    let k = index_of(s, '\n');
    if s.len() == 0 {
        assert(split_lines(pruned_text(s, candidates)) =~= pruned_lines(split_lines(s), candidates));
    } else if k == s.len() {
        assert(split_lines(s)[0] == s);
        let p = pruned_line(s, candidates);
        assert(!has_char(p, '\n')) by {
            if p == s && p.contains('\n') {
                let j = choose|j: int| 0 <= j < p.len() && p[j] == '\n';
                assert(s[j] != '\n');
            }
        }
        lemma_no_break(p);
        lemma_index_of_is(p, '\n', p.len() as int);
        assert(split_lines(p) =~= pruned_lines(split_lines(s), candidates));
    } else {
        let line = strip_cr(s.take(k));
        let end = s.subrange(line.len() as int, k + 1);
        let rest = s.skip(k + 1);
        let p = pruned_line(line, candidates);
        let tail = pruned_text(rest, candidates);
        let whole = p + end + tail;
        assert(split_lines(s)[0] == line);
        assert forall|i: int| 0 <= i < split_lines(rest).len() implies line_reads_back(
            #[trigger] split_lines(rest)[i],
            candidates,
        ) by {
            assert(split_lines(s)[i + 1] == split_lines(rest)[i]);
        }
        pruned_text_has_the_pruned_lines(rest, candidates);
        assert(!has_char(p, '\n')) by {
            if p == line && p.contains('\n') {
                let j = choose|j: int| 0 <= j < p.len() && p[j] == '\n';
                assert(s[j] != '\n');
            }
        }
        lemma_no_break(p);
        let n = (p.len() + end.len() - 1) as int;
        assert(end.last() == '\n');
        assert(end.len() == 2 ==> end[0] == '\r');
        assert forall|j: int| 0 <= j < n implies whole[j] != '\n' by {
            if j < p.len() {
                assert(whole[j] == p[j]);
            } else {
                assert(whole[j] == end[0]);
            }
        }
        assert(whole[n] == end.last());
        lemma_index_of_is(whole, '\n', n);
        assert(whole.skip(n + 1) =~= tail);
        assert(strip_cr(whole.take(n)) =~= p) by {
            if end.len() == 2 {
                assert(whole.take(n) =~= p.push('\r'));
                assert(p.push('\r').drop_last() =~= p);
            } else {
                assert(whole.take(n) =~= p);
                if p.len() > 0 && p.last() == '\r' {
                    assert(p.contains(p.last()));
                    assert(p == line);
                    assert(line =~= s.take(k));
                }
            }
        }
        assert(split_lines(whole) =~= seq![p] + split_lines(tail));
        assert(seq![p] + pruned_lines(split_lines(rest), candidates) =~= pruned_lines(
            split_lines(s),
            candidates,
        ));
    }
}

proof fn lemma_no_break(p: Seq<char>)
    requires
        !has_char(p, '\n'),
    ensures
        forall|j: int| 0 <= j < p.len() ==> p[j] != '\n',
{
    assert forall|j: int| 0 <= j < p.len() implies p[j] != '\n' by {
        assert(p.contains(p[j]));
    }
}

/// A transcript of which no line holds the id of a candidate stays as it is, to the last byte.
pub proof fn other_transcripts_stay(s: Seq<char>, candidates: Seq<CandidateModel>)
    requires
        forall|i: int|
            0 <= i < split_lines(s).len() ==> !mentions(#[trigger] split_lines(s)[i], candidates),
    ensures
        pruned_text(s, candidates) == s,
    decreases s.len(),
{
    lemma_index_of(s, '\n');
    let k = index_of(s, '\n');
    if s.len() == 0 {
    } else if k == s.len() {
        assert(!mentions(split_lines(s)[0], candidates));
    } else {
        let line = strip_cr(s.take(k));
        let rest = s.skip(k + 1);
        assert(split_lines(s)[0] == line);
        assert forall|i: int| 0 <= i < split_lines(rest).len() implies !mentions(
            #[trigger] split_lines(rest)[i],
            candidates,
        ) by {
            assert(split_lines(s)[i + 1] == split_lines(rest)[i]);
        }
        other_transcripts_stay(rest, candidates);
        assert(line + s.subrange(line.len() as int, k + 1) + rest =~= s);
    }
}

/// A copy of the transcript in which the results of the candidates are replaced by notes. Every
/// line stays a line with the break behind it, and a line that changes stays a record. The copy holds
/// the items of the transcript, with a note as the content of each candidate, and says what it says.
pub fn apply_pruning(jsonl: &str, candidates: &[PruneCandidate]) -> (out: String)
    ensures
        out@ == pruned_text(jsonl@, candidate_models(candidates@)),
        split_lines(out@) == pruned_lines(split_lines(jsonl@), candidate_models(candidates@)),
        forall|i: int|
            0 <= i < split_lines(jsonl@).len() ==> line_reads_back(
                #[trigger] split_lines(jsonl@)[i],
                candidate_models(candidates@),
            ),
        all_readable(split_lines(jsonl@), candidate_models(candidates@)) ==> session_items(
            split_lines(out@),
        ) == pruned_items(
            session_items(split_lines(jsonl@)),
            split_lines(jsonl@),
            candidate_models(candidates@),
        ),
        all_readable(split_lines(jsonl@), candidate_models(candidates@)) ==> digest_of(
            split_lines(out@),
        ) == digest_of(split_lines(jsonl@)),
{
    let chars = to_chars(jsonl);
    let n = chars.len();
    let ghost names = candidate_models(candidates@);
    let ghost whole = pruned_text(jsonl@, names);
    let ghost all = split_lines(jsonl@);
    let mut out = String::new();
    let mut start: usize = 0;
    let ghost mut done: int = 0;
    assert(jsonl@.skip(0) =~= jsonl@);
    assert(all.skip(0) =~= all);
    while start < n
        invariant
            start <= n,
            n == chars@.len(),
            chars@ == jsonl@,
            names == candidate_models(candidates@),
            whole == pruned_text(jsonl@, names),
            all == split_lines(jsonl@),
            0 <= done <= all.len(),
            all.skip(done) == split_lines(jsonl@.skip(start as int)),
            forall|j: int| 0 <= j < done ==> line_reads_back(#[trigger] all[j], names),
            out@ + pruned_text(jsonl@.skip(start as int), names) == whole,
        decreases n - start,
    {
        let ghost rest = jsonl@.skip(start as int);
        let ghost before = out@;
        let k = find_char(&chars, '\n', start);
        proof {
            lemma_index_of(rest, '\n');
        }
        assert(rest.len() == n - start);
        assert(split_lines(rest).len() > 0);
        assert(all.skip(done).len() > 0);
        assert(all[done] == all.skip(done)[0]);
        assert(all.skip(done + 1) =~= split_lines(rest).skip(1));
        if k == n {
            assert(rest =~= jsonl@.subrange(start as int, n as int));
            let line = slice_text(&chars, start, n);
            let pruned = prune_line(line.as_str(), candidates);
            out.append(pruned.as_str());
            start = n;
            assert(jsonl@.skip(n as int) =~= Seq::<char>::empty());
            assert(out@ + pruned_text(jsonl@.skip(start as int), names) =~= whole);
            assert(split_lines(rest).skip(1) =~= split_lines(jsonl@.skip(start as int)));
        } else {
            let end = if k > start && chars[k - 1] == '\r' {
                k - 1
            } else {
                k
            };
            assert(rest.take(k - start) =~= jsonl@.subrange(start as int, k as int));
            assert(strip_cr(rest.take(k - start)) =~= jsonl@.subrange(start as int, end as int));
            let line = slice_text(&chars, start, end);
            let pruned = prune_line(line.as_str(), candidates);
            let ending = slice_text(&chars, end, k + 1);
            out.append(pruned.as_str());
            out.append(ending.as_str());
            assert(rest.skip(k - start + 1) =~= jsonl@.skip(k + 1));
            assert(rest.subrange(line@.len() as int, k - start + 1) =~= ending@);
            assert(pruned_text(rest, names) == pruned@ + ending@ + pruned_text(
                jsonl@.skip(k + 1),
                names,
            ));
            assert(out@ + pruned_text(jsonl@.skip(k + 1), names) =~= before + pruned_text(
                rest,
                names,
            ));
            assert(split_lines(rest).skip(1) =~= split_lines(jsonl@.skip(k + 1)));
            start = k + 1;
        }
        proof {
            done = done + 1;
        }
    }
    assert(pruned_text(jsonl@.skip(start as int), names) =~= Seq::<char>::empty());
    assert(out@ =~= whole);
    assert(split_lines(jsonl@.skip(start as int)) =~= Seq::<Seq<char>>::empty());
    assert(done == all.len());
    proof {
        pruned_text_has_the_pruned_lines(jsonl@, names);
        if all_readable(all, names) {
            lemma_pruned_items(all, names);
            lemma_pruned_digest(all, names);
        }
    }
    out
}

spec fn lines_read_back(lines: Seq<Seq<char>>, candidates: Seq<CandidateModel>) -> bool {
    forall|i: int| 0 <= i < lines.len() ==> line_reads_back(#[trigger] lines[i], candidates)
}

/// What stays of a block that is pruned, and what it then holds.
proof fn lemma_pruned_block(block: JsonModel, candidates: Seq<CandidateModel>)
    requires
        pruned_block(block, candidates) is Some,
    ensures
        ({
            let p = pruned_block(block, candidates)->0;
            let id = block.get_text("tool_use_id"@)->0;
            &&& p.get_text("type"@) == Some("tool_result"@)
            &&& p.get_text("tool_use_id"@) == Some(id)
            &&& p.get_bool("is_error"@) == block.get_bool("is_error"@)
            &&& p.get_text("content"@) == Some(removal_note(candidate_for(candidates, id)->0))
        }),
{
    let fields = block->Object_0;
    let id = block.get_text("tool_use_id"@)->0;
    assert(block == JsonModel::Object(fields));
    reveal_strlit("content");
    reveal_strlit("type");
    reveal_strlit("tool_use_id");
    reveal_strlit("is_error");
    assert("content"@.len() == 7 && "type"@.len() == 4 && "tool_use_id"@.len() == 11
        && "is_error"@.len() == 8);
    other_fields_stay(fields, candidates, "type"@);
    other_fields_stay(fields, candidates, "tool_use_id"@);
    other_fields_stay(fields, candidates, "is_error"@);
    lemma_with_same_field(
        fields,
        "content"@,
        JsonModel::Text(removal_note(candidate_for(candidates, id)->0)),
    );
}

spec fn noted_items(items: Seq<ItemModel>, candidates: Seq<CandidateModel>) -> Seq<ItemModel> {
    items.map_values(|i: ItemModel| noted(i, candidates))
}

proof fn lemma_pruned_block_items(
    line: int,
    blocks: Seq<JsonModel>,
    candidates: Seq<CandidateModel>,
)
    ensures
        block_items(line, pruned_blocks(blocks, candidates)) == noted_items(
            block_items(line, blocks),
            candidates,
        ),
    decreases blocks.len(),
{
    let new = pruned_blocks(blocks, candidates);
    if blocks.len() > 0 {
        lemma_pruned_block_items(line, blocks.drop_last(), candidates);
        assert(new.drop_last() =~= pruned_blocks(blocks.drop_last(), candidates));
        let b = blocks.last();
        reveal_strlit("tool_use");
        reveal_strlit("tool_result");
        assert("tool_use"@.len() == 8 && "tool_result"@.len() == 11);
        if pruned_block(b, candidates) is Some {
            lemma_pruned_block(b, candidates);
        } else {
            assert(new.last() == b);
            assert(block_item(line, b) matches Some(i) ==> noted(i, candidates) == i);
        }
    }
    assert(block_items(line, new) =~= noted_items(block_items(line, blocks), candidates));
}

/// The items of a line stand in that line.
proof fn lemma_block_item_lines(line: int, blocks: Seq<JsonModel>)
    ensures
        forall|i: int|
            0 <= i < block_items(line, blocks).len() ==> line_of(
                #[trigger] block_items(line, blocks)[i],
            ) == line,
    decreases blocks.len(),
{
    if blocks.len() > 0 {
        lemma_block_item_lines(line, blocks.drop_last());
        let items = block_items(line, blocks);
        let earlier = block_items(line, blocks.drop_last());
        assert forall|i: int| 0 <= i < items.len() implies line_of(#[trigger] items[i]) == line by {
            if i < earlier.len() {
                assert(items[i] == earlier[i]);
            }
        }
    }
}

proof fn lemma_line_item_lines(line: int, text: Seq<char>)
    ensures
        forall|i: int|
            0 <= i < line_items(line, text).len() ==> line_of(#[trigger] line_items(line, text)[i])
                == line,
{
    if trim(text).len() > 0 && json_parse(text) is Some && message_blocks(
        json_parse(text)->0,
    ) is Some {
        lemma_block_item_lines(line, message_blocks(json_parse(text)->0)->0);
    }
}

proof fn lemma_session_item_lines(lines: Seq<Seq<char>>)
    ensures
        forall|i: int|
            0 <= i < session_items(lines).len() ==> 0 <= line_of(#[trigger] session_items(lines)[i])
                < lines.len(),
    decreases lines.len(),
{
    if lines.len() > 0 {
        let earlier = session_items(lines.drop_last());
        let last = line_items(lines.len() - 1, lines.last());
        let items = session_items(lines);
        lemma_session_item_lines(lines.drop_last());
        lemma_line_item_lines(lines.len() - 1, lines.last());
        assert forall|i: int| 0 <= i < items.len() implies 0 <= line_of(#[trigger] items[i])
            < lines.len() by {
            if i < earlier.len() {
                assert(items[i] == earlier[i]);
            } else {
                assert(items[i] == last[i - earlier.len()]);
            }
        }
    }
}

/// A block that would be pruned is the result of a candidate.
proof fn lemma_flagged_block(
    line: int,
    blocks: Seq<JsonModel>,
    candidates: Seq<CandidateModel>,
    k: int,
)
    requires
        0 <= k < blocks.len(),
        pruned_block(blocks[k], candidates) is Some,
    ensures
        exists|i: int|
            0 <= i < block_items(line, blocks).len() && is_flagged(
                #[trigger] block_items(line, blocks)[i],
                candidates,
            ),
    decreases blocks.len(),
{
    let items = block_items(line, blocks);
    let earlier = block_items(line, blocks.drop_last());
    if k == blocks.len() - 1 {
        reveal_strlit("tool_use");
        reveal_strlit("tool_result");
        assert("tool_use"@.len() == 8 && "tool_result"@.len() == 11);
        assert(is_flagged(items[items.len() - 1], candidates));
    } else {
        lemma_flagged_block(line, blocks.drop_last(), candidates, k);
        let i = choose|i: int|
            0 <= i < earlier.len() && is_flagged(#[trigger] earlier[i], candidates);
        assert(items[i] == earlier[i]);
    }
}

/// A line that holds no result of a candidate stays as it is.
pub proof fn lines_without_candidates_stay(
    at: int,
    line: Seq<char>,
    candidates: Seq<CandidateModel>,
)
    requires
        forall|i: int|
            0 <= i < line_items(at, line).len() ==> !is_flagged(
                #[trigger] line_items(at, line)[i],
                candidates,
            ),
    ensures
        pruned_line(line, candidates) == line,
{
    if rewritten_record(line, candidates) is Some {
        let blocks = message_blocks(json_parse(line)->0)->0;
        let k = choose|k: int|
            0 <= k < blocks.len() && pruned_block(#[trigger] blocks[k], candidates) is Some;
        lemma_flagged_block(at, blocks, candidates, k);
        let items = line_items(at, line);
        assert(items == block_items(at, blocks));
        let i = choose|i: int|
            0 <= i < block_items(at, blocks).len() && is_flagged(
                #[trigger] block_items(at, blocks)[i],
                candidates,
            );
        assert(!is_flagged(items[i], candidates));
    }
}

proof fn lemma_pruned_block_texts(blocks: Seq<JsonModel>, candidates: Seq<CandidateModel>)
    ensures
        block_texts(pruned_blocks(blocks, candidates)) == block_texts(blocks),
    decreases blocks.len(),
{
    let new = pruned_blocks(blocks, candidates);
    if blocks.len() > 0 {
        lemma_pruned_block_texts(blocks.drop_last(), candidates);
        assert(new.drop_last() =~= pruned_blocks(blocks.drop_last(), candidates));
        let b = blocks.last();
        if pruned_block(b, candidates) is Some {
            lemma_pruned_block(b, candidates);
            reveal_strlit("text");
            reveal_strlit("tool_result");
            assert("text"@.len() == 4 && "tool_result"@.len() == 11);
        }
    }
}

/// A record that is pruned keeps all fields but its message, which has the pruned blocks.
proof fn lemma_pruned_record(record: JsonModel, candidates: Seq<CandidateModel>, key: Seq<char>)
    requires
        pruned_record(record, candidates) is Some,
    ensures
        ({
            let p = pruned_record(record, candidates)->0;
            &&& key != "message"@ ==> p.get(key) == record.get(key)
            &&& message_blocks(record) is Some
            &&& message_blocks(p) == Some(pruned_blocks(message_blocks(record)->0, candidates))
        }),
{
    let fields = record->Object_0;
    let message = (record.get("message"@)->0)->Object_0;
    let blocks = JsonModel::Array(pruned_blocks(message_blocks(record)->0, candidates));
    let changed = JsonModel::Object(with_field(message, "content"@, blocks));
    lemma_with_same_field(message, "content"@, blocks);
    lemma_with_same_field(fields, "message"@, changed);
    if key != "message"@ {
        lemma_with_other_field(fields, "message"@, changed, key);
    }
}

/// Blocks that are the same but for fractions hold the same items and texts.
proof fn lemma_same_blocks(line: int, x: Seq<JsonModel>, y: Seq<JsonModel>)
    requires
        x.len() == y.len(),
        forall|i: int| 0 <= i < x.len() ==> same_but_fractions(#[trigger] x[i], y[i]),
    ensures
        block_items(line, x) == block_items(line, y),
        block_texts(x) == block_texts(y),
    decreases x.len(),
{
    if x.len() > 0 {
        let xs = x.drop_last();
        let ys = y.drop_last();
        assert forall|i: int| 0 <= i < xs.len() implies same_but_fractions(#[trigger] xs[i], ys[i]) by {
            assert(xs[i] == x[i] && ys[i] == y[i]);
        }
        lemma_same_blocks(line, xs, ys);
        let a = x[x.len() - 1];
        let b = y[x.len() - 1];
        same_fields_but_fractions(a, b, "type"@);
        same_fields_but_fractions(a, b, "id"@);
        same_fields_but_fractions(a, b, "name"@);
        same_fields_but_fractions(a, b, "input"@);
        same_fields_but_fractions(a, b, "tool_use_id"@);
        same_fields_but_fractions(a, b, "content"@);
        same_fields_but_fractions(a, b, "is_error"@);
        same_fields_but_fractions(a, b, "text"@);
        if a.get("input"@) is Some {
            same_fields_but_fractions(a.get("input"@)->0, b.get("input"@)->0, "file_path"@);
        }
    }
}

/// Records that are the same but for fractions hold the same items and say the same.
proof fn lemma_same_records(line: int, a: JsonModel, b: JsonModel)
    requires
        same_but_fractions(a, b),
    ensures
        message_blocks(a) is Some <==> message_blocks(b) is Some,
        message_blocks(a) is Some ==> block_items(line, message_blocks(a)->0) == block_items(
            line,
            message_blocks(b)->0,
        ),
        message_texts(a) == message_texts(b),
        record_turns(a) == record_turns(b),
        a.get_text("sessionId"@) == b.get_text("sessionId"@),
        a.get_text("cwd"@) == b.get_text("cwd"@),
        a.get_text("timestamp"@) == b.get_text("timestamp"@),
{
    same_fields_but_fractions(a, b, "message"@);
    same_fields_but_fractions(a, b, "type"@);
    same_fields_but_fractions(a, b, "sessionId"@);
    same_fields_but_fractions(a, b, "cwd"@);
    same_fields_but_fractions(a, b, "timestamp"@);
    if a.get("message"@) is Some {
        let m = a.get("message"@)->0;
        let n = b.get("message"@)->0;
        same_fields_but_fractions(m, n, "content"@);
        match (m.get("content"@), n.get("content"@)) {
            (Some(JsonModel::Array(x)), Some(JsonModel::Array(y))) => {
                lemma_same_blocks(line, x, y);
            },
            _ => {},
        }
    }
}

/// The items of a line that is pruned.
proof fn lemma_pruned_line_items(at: int, line: Seq<char>, candidates: Seq<CandidateModel>)
    requires
        line_reads_back(line, candidates),
        rewritten_record(line, candidates) matches Some(r) ==> no_raw_names(r) && json_parse(
            pruned_line(line, candidates),
        ) is Some,
    ensures
        mentions(line, candidates) ==> line_items(at, pruned_line(line, candidates)) == noted_items(
            line_items(at, line),
            candidates,
        ),
        !mentions(line, candidates) ==> pruned_line(line, candidates) == line,
{
    let new = pruned_line(line, candidates);
    match rewritten_record(line, candidates) {
        Some(r) => {
            let record = json_parse(line)->0;
            lemma_pruned_record(record, candidates, seq![]);
            lemma_pruned_block_items(at, message_blocks(record)->0, candidates);
            lemma_same_records(at, r, json_parse(new)->0);
            assert(line_items(at, new) == block_items(at, message_blocks(r)->0));
        },
        None => {
            let items = line_items(at, line);
            if mentions(line, candidates) && trim(line).len() > 0 && json_parse(line) is Some
                && message_blocks(json_parse(line)->0) is Some {
                let blocks = message_blocks(json_parse(line)->0)->0;
                assert(!some_pruned(blocks, candidates));
                assert(pruned_blocks(blocks, candidates) =~= blocks);
                lemma_pruned_block_items(at, blocks, candidates);
            } else {
                assert(mentions(line, candidates) ==> items =~= noted_items(items, candidates));
            }
        },
    }
}

proof fn lemma_pruned_items(lines: Seq<Seq<char>>, candidates: Seq<CandidateModel>)
    requires
        lines_read_back(lines, candidates),
        all_readable(lines, candidates),
    ensures
        session_items(pruned_lines(lines, candidates)) == pruned_items(
            session_items(lines),
            lines,
            candidates,
        ),
    decreases lines.len(),
{
    let new = pruned_lines(lines, candidates);
    if lines.len() > 0 {
        let before = lines.drop_last();
        let line = lines[lines.len() - 1];
        let at = lines.len() - 1;
        lemma_fewer_lines(lines, candidates);
        lemma_pruned_items(before, candidates);
        assert(new.drop_last() =~= pruned_lines(before, candidates));
        assert(line_reads_back(line, candidates));
        lemma_pruned_line_items(at, line, candidates);
        lemma_line_item_lines(at, line);
        lemma_session_item_lines(before);
        let items = line_items(at, line);
        assert(line_items(at, new.last()) =~= pruned_items(items, lines, candidates));
        assert(pruned_items(session_items(before), before, candidates) =~= pruned_items(
            session_items(before),
            lines,
            candidates,
        )) by {
            assert forall|i: int| 0 <= i < session_items(before).len() implies pruned_item(
                #[trigger] session_items(before)[i],
                before,
                candidates,
            ) == pruned_item(session_items(before)[i], lines, candidates) by {
                let l = line_of(session_items(before)[i]);
                assert(before[l] == lines[l]);
            }
        }
    }
    assert(session_items(new) =~= pruned_items(session_items(lines), lines, candidates));
}

proof fn lemma_fewer_lines(lines: Seq<Seq<char>>, candidates: Seq<CandidateModel>)
    requires
        lines.len() > 0,
        lines_read_back(lines, candidates),
        all_readable(lines, candidates),
    ensures
        lines_read_back(lines.drop_last(), candidates),
        all_readable(lines.drop_last(), candidates),
{
    let rest = lines.drop_last();
    assert forall|i: int| 0 <= i < rest.len() implies line_reads_back(
        #[trigger] rest[i],
        candidates,
    ) by {
        assert(rest[i] == lines[i]);
    }
    assert forall|i: int| 0 <= i < rest.len() implies (rewritten_record(
        #[trigger] rest[i],
        candidates,
    ) matches Some(r) ==> no_raw_names(r) && json_parse(pruned_line(rest[i], candidates)) is Some) by {
        assert(rest[i] == lines[i]);
    }
}

proof fn lemma_pruned_digest(lines: Seq<Seq<char>>, candidates: Seq<CandidateModel>)
    requires
        lines_read_back(lines, candidates),
        all_readable(lines, candidates),
    ensures
        digest_of(pruned_lines(lines, candidates)) == digest_of(lines),
    decreases lines.len(),
{
    let new = pruned_lines(lines, candidates);
    if lines.len() > 0 {
        lemma_fewer_lines(lines, candidates);
        lemma_pruned_digest(lines.drop_last(), candidates);
        assert(new.drop_last() =~= pruned_lines(lines.drop_last(), candidates));
        let line = lines[lines.len() - 1];
        assert(line_reads_back(line, candidates));
        match rewritten_record(line, candidates) {
            Some(r) => {
                let record = json_parse(line)->0;
                reveal_strlit("message");
                reveal_strlit("type");
                reveal_strlit("sessionId");
                reveal_strlit("cwd");
                reveal_strlit("timestamp");
                assert("message"@.len() == 7 && "type"@.len() == 4 && "sessionId"@.len() == 9
                    && "cwd"@.len() == 3 && "timestamp"@.len() == 9);
                lemma_pruned_record(record, candidates, "type"@);
                lemma_pruned_record(record, candidates, "sessionId"@);
                lemma_pruned_record(record, candidates, "cwd"@);
                lemma_pruned_record(record, candidates, "timestamp"@);
                lemma_pruned_block_texts(message_blocks(record)->0, candidates);
                assert(message_texts(r) == message_texts(record));
                assert(record_turns(r) == record_turns(record));
                lemma_same_records(0, r, json_parse(new.last())->0);
            },
            None => {
                assert(new.last() == line);
            },
        }
    }
}

/// A line that holds the id of no candidate stays as it is.
pub proof fn other_lines_stay(line: Seq<char>, candidates: Seq<CandidateModel>)
    requires
        !mentions(line, candidates),
    ensures
        pruned_line(line, candidates) == line,
{
}

/// Nothing changes in a block but its content.
pub proof fn other_fields_stay(
    fields: Seq<(Seq<char>, JsonModel)>,
    candidates: Seq<CandidateModel>,
    key: Seq<char>,
)
    requires
        pruned_block(JsonModel::Object(fields), candidates) is Some,
        key != "content"@,
    ensures
        (pruned_block(JsonModel::Object(fields), candidates)->0).get(key) == JsonModel::Object(
            fields,
        ).get(key),
{
    let id = JsonModel::Object(fields).get_text("tool_use_id"@)->0;
    lemma_with_other_field(
        fields,
        "content"@,
        JsonModel::Text(removal_note(candidate_for(candidates, id)->0)),
        key,
    );
}

/// The candidate is a result of the session: its line, its id and its size.
pub open spec fn is_result(items: Seq<ItemModel>, c: CandidateModel) -> bool {
    exists|i: int|
        0 <= i < items.len() && (#[trigger] items[i] matches ItemModel::Result(r) && r.line == c.line
            && r.id == c.id && byte_len(r.content) == c.bytes)
}

pub open spec fn all_results(items: Seq<ItemModel>, candidates: Seq<CandidateModel>) -> bool {
    forall|j: int| 0 <= j < candidates.len() ==> is_result(items, #[trigger] candidates[j])
}

/// Whatever the rules find is a result that the session holds.
pub proof fn candidates_are_results(
    items: Seq<ItemModel>,
    include_rule_2: bool,
    min_bytes: int,
    window: int,
)
    ensures
        all_results(items, all_candidates(items, include_rule_2, min_bytes, window)),
{
    lemma_stale_reads_of(items, read_paths(items));
    lemma_covered_writes(items, items);
    lemma_errors_in(items);
    lemma_by_line(items, errors_in(items));
    lemma_repeated_errors(items, results_by_line(errors_in(items)));
    lemma_old_large_outputs(items, items.len() as int, min_bytes, window);
    lemma_launches_in(items);
    lemma_by_line(items, launches_in(items));
    let launches = launch_candidates(items);
    assert forall|j: int| 0 <= j < launches.len() implies is_result(
        items,
        #[trigger] launches[j],
    ) by {
        let r = results_by_line(launches_in(items))[j];
        assert(launches[j] == old_launch(r));
        assert(held(items, r));
    }
}

/// The result is one of the items.
spec fn held(items: Seq<ItemModel>, r: ResultModel) -> bool {
    exists|i: int| 0 <= i < items.len() && #[trigger] items[i] == ItemModel::Result(r)
}

spec fn all_held(items: Seq<ItemModel>, results: Seq<ResultModel>) -> bool {
    forall|j: int| 0 <= j < results.len() ==> held(items, #[trigger] results[j])
}

proof fn lemma_held(items: Seq<ItemModel>, r: ResultModel)
    requires
        items.len() > 0,
        held(items.drop_last(), r),
    ensures
        held(items, r),
{
    let i = choose|i: int|
        0 <= i < items.len() - 1 && #[trigger] items.drop_last()[i] == ItemModel::Result(r);
    assert(items[i] == ItemModel::Result(r));
}

proof fn lemma_result_of(items: Seq<ItemModel>, id: Seq<char>)
    ensures
        result_of(items, id) matches Some(r) ==> r.id == id && held(items, r),
    decreases items.len(),
{
    if items.len() > 0 {
        lemma_result_of(items.drop_last(), id);
        match result_of(items, id) {
            Some(r) => {
                if items.last() == ItemModel::Result(r) {
                    assert(items[items.len() - 1] == ItemModel::Result(r));
                } else {
                    lemma_held(items, r);
                }
            },
            None => {},
        }
    }
}

proof fn lemma_stale_reads(items: Seq<ItemModel>, path: Seq<char>, reads: Seq<UseModel>)
    ensures
        all_results(items, stale_reads(items, path, reads)),
    decreases reads.len(),
{
    if reads.len() > 0 {
        lemma_stale_reads(items, path, reads.drop_last());
        lemma_result_of(items, reads.last().id);
    }
}

proof fn lemma_stale_reads_of(items: Seq<ItemModel>, paths: Seq<Seq<char>>)
    ensures
        all_results(items, stale_reads_of(items, paths)),
    decreases paths.len(),
{
    if paths.len() > 0 {
        lemma_stale_reads_of(items, paths.drop_last());
        lemma_stale_reads(
            items,
            paths.last(),
            all_but_last(uses_by_line(reads_of(items, paths.last()))),
        );
    }
}

proof fn lemma_covered_writes(items: Seq<ItemModel>, upto: Seq<ItemModel>)
    ensures
        all_results(items, covered_writes(items, upto)),
    decreases upto.len(),
{
    if upto.len() > 0 {
        lemma_covered_writes(items, upto.drop_last());
        match upto.last() {
            ItemModel::Use(u) => {
                lemma_result_of(items, u.id);
            },
            ItemModel::Result(_) => {},
        }
    }
}

proof fn lemma_errors_in(items: Seq<ItemModel>)
    ensures
        all_held(items, errors_in(items)),
    decreases items.len(),
{
    if items.len() > 0 {
        lemma_errors_in(items.drop_last());
        let found = errors_in(items);
        assert forall|j: int| 0 <= j < found.len() implies held(items, #[trigger] found[j]) by {
            if j < errors_in(items.drop_last()).len() {
                assert(found[j] == errors_in(items.drop_last())[j]);
                lemma_held(items, found[j]);
            } else {
                assert(items[items.len() - 1] == ItemModel::Result(found[j]));
            }
        }
    }
}

proof fn lemma_launches_in(items: Seq<ItemModel>)
    ensures
        all_held(items, launches_in(items)),
    decreases items.len(),
{
    if items.len() > 0 {
        lemma_launches_in(items.drop_last());
        let found = launches_in(items);
        assert forall|j: int| 0 <= j < found.len() implies held(items, #[trigger] found[j]) by {
            if j < launches_in(items.drop_last()).len() {
                assert(found[j] == launches_in(items.drop_last())[j]);
                lemma_held(items, found[j]);
            } else {
                assert(items[items.len() - 1] == ItemModel::Result(found[j]));
            }
        }
    }
}

proof fn lemma_by_line(items: Seq<ItemModel>, results: Seq<ResultModel>)
    requires
        all_held(items, results),
    ensures
        all_held(items, results_by_line(results)),
{
    let keys = Seq::new(results.len(), |i: int| results[i].line);
    stable_order_sorts(keys);
    let sorted = results_by_line(results);
    assert forall|j: int| 0 <= j < sorted.len() implies held(items, #[trigger] sorted[j]) by {
        assert(sorted[j] == results[stable_order(keys)[j]]);
    }
}

proof fn lemma_repeated_errors(items: Seq<ItemModel>, errors: Seq<ResultModel>)
    requires
        all_held(items, errors),
    ensures
        all_results(items, repeated_errors(items, errors)),
    decreases errors.len(),
{
    if errors.len() > 0 {
        assert forall|j: int| 0 <= j < errors.drop_last().len() implies held(
            items,
            #[trigger] errors.drop_last()[j],
        ) by {
            assert(errors.drop_last()[j] == errors[j]);
        }
        lemma_repeated_errors(items, errors.drop_last());
        assert(held(items, errors[errors.len() - 1]));
    }
}

proof fn lemma_old_large_outputs(items: Seq<ItemModel>, total: int, min_bytes: int, window: int)
    ensures
        all_results(items, old_large_outputs(items, total, min_bytes, window)),
    decreases items.len(),
{
    if items.len() > 0 {
        lemma_old_large_outputs(items.drop_last(), total, min_bytes, window);
        let found = old_large_outputs(items, total, min_bytes, window);
        let before = old_large_outputs(items.drop_last(), total, min_bytes, window);
        assert forall|j: int| 0 <= j < found.len() implies is_result(items, #[trigger] found[j]) by {
            if j < before.len() {
                assert(found[j] == before[j]);
                let i = choose|i: int|
                    0 <= i < items.len() - 1 && (
                    #[trigger] items.drop_last()[i] matches ItemModel::Result(r) && r.line
                        == found[j].line && r.id == found[j].id && byte_len(r.content)
                        == found[j].bytes);
                assert(items[i] == items.drop_last()[i]);
            } else {
                assert(items[items.len() - 1] is Result);
            }
        }
    }
}

/// A large result among the last items of a session is no candidate.
pub proof fn recent_outputs_stay(
    items: Seq<ItemModel>,
    upto: int,
    min_bytes: int,
    window: int,
    j: int,
)
    requires
        0 <= upto <= items.len(),
        0 <= j < old_large_outputs(items.take(upto), items.len() as int, min_bytes, window).len(),
    ensures
        exists|i: int|
            0 <= i < upto && i + window < items.len() && old_large(
                #[trigger] items[i],
                i,
                items.len() as int,
                min_bytes,
                window,
            ) == Some(old_large_outputs(items.take(upto), items.len() as int, min_bytes, window)[j]),
    decreases upto,
{
    let part = items.take(upto);
    let total = items.len() as int;
    if upto > 0 {
        let rest = items.take(upto - 1);
        let before = old_large_outputs(rest, total, min_bytes, window);
        assert(part.drop_last() =~= rest);
        assert(part.last() == items[upto - 1]);
        if j < before.len() {
            recent_outputs_stay(items, upto - 1, min_bytes, window, j);
        } else {
            assert(old_large(items[upto - 1], upto - 1, total, min_bytes, window) is Some);
        }
    }
}

/// An error is a candidate only where the same tool had the same error before.
pub proof fn first_errors_stay(items: Seq<ItemModel>, errors: Seq<ResultModel>, j: int)
    requires
        0 <= j < repeated_errors(items, errors).len(),
    ensures
        exists|a: int, b: int|
            0 <= a < b < errors.len() && same_error(items, #[trigger] errors[a], #[trigger] errors[b])
                && repeated_errors(items, errors)[j].line == errors[b].line && repeated_errors(
                items,
                errors,
            )[j].id == errors[b].id,
    decreases errors.len(),
{
    if errors.len() > 0 {
        let rest = errors.drop_last();
        let before = repeated_errors(items, rest);
        if j < before.len() {
            first_errors_stay(items, rest, j);
            let (a, b) = choose|a: int, b: int|
                0 <= a < b < rest.len() && same_error(items, #[trigger] rest[a], #[trigger] rest[b])
                    && before[j].line == rest[b].line && before[j].id == rest[b].id;
            assert(errors[a] == rest[a] && errors[b] == rest[b]);
        } else {
            let a = choose|a: int|
                0 <= a < rest.len() && same_error(items, #[trigger] rest[a], errors.last());
            let b = errors.len() - 1;
            assert(errors[a] == rest[a] && errors[b] == errors.last());
        }
    }
}

/// A record that is rewritten keeps all its fields but its message, and that keeps all but its content:
/// as many blocks as before, those of no candidate as they are.
pub proof fn other_parts_of_records_stay(
    record: JsonModel,
    candidates: Seq<CandidateModel>,
    key: Seq<char>,
    i: int,
)
    requires
        pruned_record(record, candidates) is Some,
        0 <= i < (message_blocks(record)->0).len(),
    ensures
        ({
            let p = pruned_record(record, candidates)->0;
            let before = message_blocks(record)->0;
            let after = message_blocks(p)->0;
            let id = before[i].get_text("tool_use_id"@);
            &&& key != "message"@ ==> p.get(key) == record.get(key)
            &&& key != "content"@ ==> (p.get("message"@)->0).get(key) == (record.get("message"@)->0).get(key)
            &&& message_blocks(p) is Some
            &&& after.len() == before.len()
            &&& before[i].get_text("type"@) != Some("tool_result"@) ==> after[i] == before[i]
            &&& id is None ==> after[i] == before[i]
            &&& id is Some && (forall|k: int|
                0 <= k < candidates.len() ==> (#[trigger] candidates[k]).id != id->0) ==> after[i]
                == before[i]
        }),
{
    lemma_pruned_record(record, candidates, key);
    let fields = record->Object_0;
    let message = (record.get("message"@)->0)->Object_0;
    let blocks = JsonModel::Array(pruned_blocks(message_blocks(record)->0, candidates));
    let changed = JsonModel::Object(with_field(message, "content"@, blocks));
    lemma_with_same_field(fields, "message"@, changed);
    if key != "content"@ {
        lemma_with_other_field(message, "content"@, blocks, key);
    }
    let id = (message_blocks(record)->0)[i].get_text("tool_use_id"@);
    if id is Some && (forall|k: int|
        0 <= k < candidates.len() ==> (#[trigger] candidates[k]).id != id->0) {
        lemma_no_candidate(candidates, id->0);
    }
}

proof fn lemma_no_candidate(candidates: Seq<CandidateModel>, id: Seq<char>)
    requires
        forall|k: int| 0 <= k < candidates.len() ==> (#[trigger] candidates[k]).id != id,
    ensures
        candidate_for(candidates, id) is None,
    decreases candidates.len(),
{
    if candidates.len() > 0 {
        let rest = candidates.drop_last();
        assert(candidates[candidates.len() - 1].id != id);
        assert forall|k: int| 0 <= k < rest.len() implies (#[trigger] rest[k]).id != id by {
            assert(rest[k] == candidates[k]);
        }
        lemma_no_candidate(rest, id);
    }
}

} // verus!
