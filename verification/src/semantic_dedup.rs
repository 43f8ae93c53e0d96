//! Which sentences of a text say what an earlier one has said.
//!
//! A model scores how alike two sentences are. It is not part of the library: [`Dedup`] tells which
//! sentences to score next, takes the scores and decides.
use crate::json::{models, Json, JsonModel};
use crate::order::{
    arranged, distinct_below, ints, order_by, signed_keys, stable_order, stable_order_sorts,
};
use crate::patterns::{regex_is_match, Pattern};
use crate::sentences::{is_effectively_unpunctuated, sentences_of, split_sentences, unpunctuated};
use crate::session_prune::with_option;
use crate::text::{
    copy_str, join, join_texts, lemma_views_push, option_view, split_words, trim, trim_text, views,
    word_count,
};
use vstd::prelude::*;

verus! {

/// Sentences of fewer words than this are never dropped.
pub const MIN_WORDS: usize = 8;

/// Sentences of more words than this are never dropped.
pub const MAX_WORDS: usize = 40;

/// How many kept sentences, from the last backwards, a sentence is compared with.
pub const MAX_COMPARISON_WINDOW: usize = 500;

pub const MIN_SENTENCES_FOR_SUMMARY: usize = 4;

pub const SUMMARY_MIN: usize = 3;

pub const SUMMARY_MAX: usize = 10;

/// Whether a sentence tells of something that happened or states something.
#[derive(Debug, Clone, Copy, PartialEq, Eq, Structural)]
pub enum SentenceShape {
    Narrative,
    Concept,
}

pub open spec fn shape_of(sentence: Seq<char>) -> SentenceShape {
    if Pattern::NarrativeMarker.matches_in(sentence) {
        SentenceShape::Narrative
    } else {
        SentenceShape::Concept
    }
}

pub fn classify_shape(sentence: &str) -> (s: SentenceShape)
    ensures
        s == shape_of(sentence@),
{
    if Pattern::NarrativeMarker.is_match(sentence) {
        SentenceShape::Narrative
    } else {
        SentenceShape::Concept
    }
}

/// A sentence that stays, with the numbers of its embedding where they are to be reported.
#[derive(Debug)]
pub struct KeptSentence {
    pub text: String,
    pub index: usize,
    pub shape: SentenceShape,
    pub embedding: Option<Vec<Json>>,
}

/// A sentence that goes, and the kept one that says the same.
#[derive(Debug)]
pub struct Drop {
    pub dropped_index: usize,
    pub kept_index: usize,
    pub similarity: Json,
}

/// How alike two sentences are: a key that orders the scores, whether the score exceeds the
/// threshold, and the score as it is reported.
#[derive(Debug)]
pub struct Score {
    pub key: u64,
    pub exceeds_threshold: bool,
    pub similarity: Json,
}

#[derive(Debug)]
pub struct DedupResult {
    pub original_sentences: usize,
    pub kept_sentences: usize,
    pub content: String,
    pub kept: Vec<KeptSentence>,
    pub drops: Vec<Drop>,
    pub summary: Vec<String>,
    pub punctuation_restored: bool,
}

pub struct KeptModel {
    pub text: Seq<char>,
    pub index: int,
    pub shape: SentenceShape,
    pub embedding: Option<Seq<JsonModel>>,
}

pub struct DropModel {
    pub dropped: int,
    pub kept: int,
    pub similarity: JsonModel,
}

pub struct ScoreModel {
    pub key: int,
    pub exceeds: bool,
    pub similarity: JsonModel,
}

pub open spec fn embedding_view(e: Option<Vec<Json>>) -> Option<Seq<JsonModel>> {
    match e {
        Some(v) => Some(models(v@)),
        None => None,
    }
}

impl View for KeptSentence {
    type V = KeptModel;

    open spec fn view(&self) -> KeptModel {
        KeptModel {
            text: self.text@,
            index: self.index as int,
            shape: self.shape,
            embedding: embedding_view(self.embedding),
        }
    }
}

impl View for Drop {
    type V = DropModel;

    open spec fn view(&self) -> DropModel {
        DropModel {
            dropped: self.dropped_index as int,
            kept: self.kept_index as int,
            similarity: self.similarity@,
        }
    }
}

impl View for Score {
    type V = ScoreModel;

    open spec fn view(&self) -> ScoreModel {
        ScoreModel {
            key: self.key as int,
            exceeds: self.exceeds_threshold,
            similarity: self.similarity@,
        }
    }
}

pub open spec fn kept_models(v: Seq<KeptSentence>) -> Seq<KeptModel> {
    v.map_values(|k: KeptSentence| k@)
}

pub open spec fn drop_models(v: Seq<Drop>) -> Seq<DropModel> {
    v.map_values(|d: Drop| d@)
}

pub open spec fn score_models(v: Seq<Score>) -> Seq<ScoreModel> {
    v.map_values(|s: Score| s@)
}

/// The sentence is of the length that is compared with others.
pub open spec fn comparable(sentence: Seq<char>) -> bool {
    MIN_WORDS <= split_words(sentence).len() <= MAX_WORDS
}

/// What is decided after the first `next` sentences.
pub struct DedupModel {
    pub sentences: Seq<Seq<char>>,
    pub next: int,
    pub kept: Seq<KeptModel>,
    /// The indices of the kept sentences that others are compared with.
    pub embedded: Seq<int>,
    pub drops: Seq<DropModel>,
}

pub open spec fn kept_next(m: DedupModel, embedding: Option<Seq<JsonModel>>) -> KeptModel {
    KeptModel {
        text: m.sentences[m.next],
        index: m.next,
        shape: shape_of(m.sentences[m.next]),
        embedding,
    }
}

/// The next sentences are kept up to one that has to be compared.
pub open spec fn advanced(m: DedupModel) -> DedupModel
    decreases m.sentences.len() - m.next,
{
    if 0 <= m.next < m.sentences.len() && !comparable(m.sentences[m.next]) {
        advanced(DedupModel { next: m.next + 1, kept: m.kept.push(kept_next(m, None)), ..m })
    } else {
        m
    }
}

/// The last of the indices, as many as are compared.
pub open spec fn comparison_window(embedded: Seq<int>) -> Seq<int> {
    if embedded.len() > MAX_COMPARISON_WINDOW {
        embedded.skip(embedded.len() - MAX_COMPARISON_WINDOW)
    } else {
        embedded
    }
}

/// Where the greatest key stands; the last place where there are several.
pub open spec fn best_of(scores: Seq<ScoreModel>) -> Option<int>
    decreases scores.len(),
{
    if scores.len() == 0 {
        None
    } else {
        match best_of(scores.drop_last()) {
            Some(b) if scores[b].key > scores.last().key => Some(b),
            _ => Some(scores.len() - 1),
        }
    }
}

/// The next sentence is dropped where the best of the scores exceeds the threshold, and kept
/// otherwise.
pub open spec fn decided(
    m: DedupModel,
    scores: Seq<ScoreModel>,
    embedding: Option<Seq<JsonModel>>,
) -> DedupModel {
    match best_of(scores) {
        Some(b) if scores[b].exceeds => DedupModel {
            next: m.next + 1,
            drops: m.drops.push(
                DropModel {
                    dropped: m.next,
                    kept: comparison_window(m.embedded)[b],
                    similarity: scores[b].similarity,
                },
            ),
            ..m
        },
        _ => DedupModel {
            next: m.next + 1,
            kept: m.kept.push(kept_next(m, embedding)),
            embedded: m.embedded.push(m.next),
            ..m
        },
    }
}

pub open spec fn begun(sentences: Seq<Seq<char>>) -> DedupModel {
    DedupModel { sentences, next: 0, kept: seq![], embedded: seq![], drops: seq![] }
}

/// Sentence `i` was kept.
pub open spec fn is_kept(m: DedupModel, i: int) -> bool {
    exists|k: int| 0 <= k < m.kept.len() && (#[trigger] m.kept[k]).index == i
}

/// Sentence `i` was dropped.
pub open spec fn is_dropped(m: DedupModel, i: int) -> bool {
    exists|k: int| 0 <= k < m.drops.len() && (#[trigger] m.drops[k]).dropped == i
}

/// Every sentence so far is kept or dropped and not both, the kept ones in order and word for
/// word; only comparable ones are dropped, each for an earlier one that is kept.
pub open spec fn sound(m: DedupModel) -> bool {
    &&& 0 <= m.next <= m.sentences.len()
    &&& m.kept.len() + m.drops.len() == m.next
    &&& forall|i: int| 0 <= i < m.next ==> #[trigger] is_kept(m, i) != is_dropped(m, i)
    &&& forall|k: int|
        0 <= k < m.kept.len() ==> 0 <= (#[trigger] m.kept[k]).index < m.next && m.kept[k].text
            == m.sentences[m.kept[k].index] && m.kept[k].shape == shape_of(m.kept[k].text)
    &&& forall|j: int, k: int|
        0 <= j < k < m.kept.len() ==> (#[trigger] m.kept[j]).index < (#[trigger] m.kept[k]).index
    &&& forall|k: int| 0 <= k < m.embedded.len() ==> is_kept(m, #[trigger] m.embedded[k])
    &&& forall|j: int, k: int|
        0 <= j < k < m.embedded.len() ==> #[trigger] m.embedded[j] < #[trigger] m.embedded[k]
    &&& forall|k: int|
        0 <= k < m.drops.len() ==> 0 <= (#[trigger] m.drops[k]).kept < m.drops[k].dropped < m.next
            && is_kept(m, m.drops[k].kept) && comparable(m.sentences[m.drops[k].dropped])
}

proof fn lemma_is_kept(m: DedupModel, more: DedupModel, i: int)
    requires
        m.kept == more.kept.take(m.kept.len() as int),
        m.kept.len() <= more.kept.len(),
        is_kept(m, i),
    ensures
        is_kept(more, i),
{
    let k = choose|k: int| 0 <= k < m.kept.len() && (#[trigger] m.kept[k]).index == i;
    assert(more.kept[k] == m.kept[k]);
}

/// Keeping the next sentence leaves the decisions sound.
proof fn lemma_keep(m: DedupModel, embedding: Option<Seq<JsonModel>>, embed: bool)
    requires
        sound(m),
        m.next < m.sentences.len(),
    ensures
        ({
            let n = DedupModel {
                next: m.next + 1,
                kept: m.kept.push(kept_next(m, embedding)),
                embedded: if embed {
                    m.embedded.push(m.next)
                } else {
                    m.embedded
                },
                ..m
            };
            sound(n)
        }),
{
    let n = DedupModel {
        next: m.next + 1,
        kept: m.kept.push(kept_next(m, embedding)),
        embedded: if embed {
            m.embedded.push(m.next)
        } else {
            m.embedded
        },
        ..m
    };
    assert(n.kept.take(m.kept.len() as int) =~= m.kept);
    let last = m.kept.len() as int;
    assert(n.kept[last].index == m.next);
    assert(is_kept(n, m.next));
    assert forall|i: int| 0 <= i < n.next implies #[trigger] is_kept(n, i) != is_dropped(n, i) by {
        if is_dropped(m, i) {
            let k = choose|k: int| 0 <= k < m.drops.len() && (#[trigger] m.drops[k]).dropped == i;
            assert(n.drops[k].dropped == i);
            assert(i < m.next);
            if is_kept(n, i) {
                let j = choose|j: int| 0 <= j < n.kept.len() && (#[trigger] n.kept[j]).index == i;
                assert(m.kept[j].index == i);
                assert(is_kept(m, i));
            }
        } else {
            if is_dropped(n, i) {
                let k = choose|k: int|
                    0 <= k < n.drops.len() && (#[trigger] n.drops[k]).dropped == i;
                assert(m.drops[k].dropped == i);
            }
            if i < m.next {
                assert(is_kept(m, i));
                lemma_is_kept(m, n, i);
            }
        }
    }
    assert forall|k: int| 0 <= k < n.embedded.len() implies is_kept(n, #[trigger] n.embedded[k]) by {
        if k < m.embedded.len() {
            assert(is_kept(m, m.embedded[k]));
            lemma_is_kept(m, n, m.embedded[k]);
        }
    }
    assert forall|j: int, k: int| 0 <= j < k < n.embedded.len() implies #[trigger] n.embedded[j]
        < #[trigger] n.embedded[k] by {
        if k == m.embedded.len() {
            assert(is_kept(m, m.embedded[j]));
        }
    }
    assert forall|k: int| 0 <= k < n.drops.len() implies 0 <= (#[trigger] n.drops[k]).kept
        < n.drops[k].dropped < n.next && is_kept(n, n.drops[k].kept) && comparable(
        n.sentences[n.drops[k].dropped],
    ) by {
        assert(is_kept(m, m.drops[k].kept));
        lemma_is_kept(m, n, m.drops[k].kept);
    }
}

/// Dropping the next sentence for a kept one leaves the decisions sound.
proof fn lemma_drop(m: DedupModel, kept: int, similarity: JsonModel)
    requires
        sound(m),
        m.next < m.sentences.len(),
        comparable(m.sentences[m.next]),
        is_kept(m, kept),
    ensures
        sound(
            DedupModel {
                next: m.next + 1,
                drops: m.drops.push(DropModel { dropped: m.next, kept, similarity }),
                ..m
            },
        ),
{
    let d = DropModel { dropped: m.next, kept, similarity };
    let n = DedupModel { next: m.next + 1, drops: m.drops.push(d), ..m };
    let last = m.drops.len() as int;
    assert(n.drops[last].dropped == m.next);
    assert(is_dropped(n, m.next));
    assert(n.kept.take(m.kept.len() as int) =~= m.kept);
    assert forall|i: int| #[trigger] is_kept(n, i) == is_kept(m, i) by {
        if is_kept(n, i) {
            let k = choose|k: int| 0 <= k < n.kept.len() && (#[trigger] n.kept[k]).index == i;
            assert(m.kept[k].index == i);
        }
        if is_kept(m, i) {
            lemma_is_kept(m, n, i);
        }
    }
    assert forall|i: int| 0 <= i < n.next implies #[trigger] is_kept(n, i) != is_dropped(n, i) by {
        if i < m.next {
            assert(is_kept(m, i) != is_dropped(m, i));
            if is_dropped(m, i) {
                let k = choose|k: int|
                    0 <= k < m.drops.len() && (#[trigger] m.drops[k]).dropped == i;
                assert(n.drops[k].dropped == i);
            }
            if is_dropped(n, i) {
                let k = choose|k: int|
                    0 <= k < n.drops.len() && (#[trigger] n.drops[k]).dropped == i;
                assert(m.drops[k].dropped == i);
            }
        } else if is_kept(m, i) {
            let k = choose|k: int| 0 <= k < m.kept.len() && (#[trigger] m.kept[k]).index == i;
            assert(false);
        }
    }
    assert(0 <= kept < m.next) by {
        let k = choose|k: int| 0 <= k < m.kept.len() && (#[trigger] m.kept[k]).index == kept;
    }
    assert forall|k: int| 0 <= k < n.embedded.len() implies is_kept(n, #[trigger] n.embedded[k]) by {
        assert(is_kept(m, m.embedded[k]));
    }
}

proof fn lemma_advanced(m: DedupModel)
    requires
        sound(m),
    ensures
        sound(advanced(m)),
        advanced(m).sentences == m.sentences,
        advanced(m).next < m.sentences.len() ==> comparable(m.sentences[advanced(m).next]),
    decreases m.sentences.len() - m.next,
{
    if m.next < m.sentences.len() && !comparable(m.sentences[m.next]) {
        lemma_keep(m, None, false);
        lemma_advanced(DedupModel { next: m.next + 1, kept: m.kept.push(kept_next(m, None)), ..m });
    }
}

proof fn lemma_best_of(scores: Seq<ScoreModel>)
    ensures
        best_of(scores) is Some <==> scores.len() > 0,
        best_of(scores) matches Some(b) ==> 0 <= b < scores.len(),
    decreases scores.len(),
{
    if scores.len() > 0 {
        lemma_best_of(scores.drop_last());
    }
}

/// The decisions are sound from the start.
pub proof fn begun_is_sound(sentences: Seq<Seq<char>>)
    ensures
        sound(advanced(begun(sentences))),
{
    lemma_advanced(begun(sentences));
}

/// Every answer leaves the decisions sound, whatever the scores are.
pub proof fn answers_are_sound(
    m: DedupModel,
    scores: Seq<ScoreModel>,
    embedding: Option<Seq<JsonModel>>,
)
    requires
        sound(m),
        m.next < m.sentences.len(),
        comparable(m.sentences[m.next]),
        scores.len() == comparison_window(m.embedded).len(),
    ensures
        sound(advanced(decided(m, scores, embedding))),
{
    lemma_best_of(scores);
    match best_of(scores) {
        Some(b) if scores[b].exceeds => {
            let window = comparison_window(m.embedded);
            let k = b + (m.embedded.len() - window.len());
            assert(window[b] == m.embedded[k]);
            assert(is_kept(m, m.embedded[k]));
            lemma_drop(m, window[b], scores[b].similarity);
        },
        _ => {
            lemma_keep(m, embedding, true);
        },
    }
    lemma_advanced(decided(m, scores, embedding));
}

/// The best score is no less than any other.
pub proof fn best_is_greatest(scores: Seq<ScoreModel>, i: int)
    requires
        0 <= i < scores.len(),
    ensures
        best_of(scores) matches Some(b) && scores[i].key <= scores[b].key,
    decreases scores.len(),
{
    lemma_best_of(scores);
    lemma_best_of(scores.drop_last());
    if i < scores.len() - 1 {
        best_is_greatest(scores.drop_last(), i);
        assert(scores.drop_last()[i] == scores[i]);
    }
    match best_of(scores.drop_last()) {
        Some(b) => {
            assert(scores.drop_last()[b] == scores[b]);
        },
        None => {},
    }
}

/// The decisions on the sentences of a text, made one at a time.
#[derive(Debug)]
pub struct Dedup {
    sentences: Vec<String>,
    narrative: Vec<bool>,
    next: usize,
    kept: Vec<KeptSentence>,
    embedded: Vec<usize>,
    drops: Vec<Drop>,
}

impl View for Dedup {
    type V = DedupModel;

    closed spec fn view(&self) -> DedupModel {
        DedupModel {
            sentences: views(self.sentences@),
            next: self.next as int,
            kept: kept_models(self.kept@),
            embedded: ints(self.embedded@),
            drops: drop_models(self.drops@),
        }
    }
}

impl Dedup {
    /// The sentences before the next are decided, and the next one is to be compared.
    pub closed spec fn wf(&self) -> bool {
        &&& self.loose()
        &&& self.next < self.sentences@.len() ==> comparable(self.sentences@[self.next as int]@)
    }

    spec fn loose(&self) -> bool {
        &&& self.narrative@.len() == self.sentences@.len()
        &&& forall|i: int|
            0 <= i < self.sentences@.len() ==> #[trigger] self.narrative@[i]
                == Pattern::NarrativeMarker.matches_in(self.sentences@[i]@)
        &&& sound(self@)
    }

    /// What the invariant says of the decisions.
    pub proof fn wf_is_sound(&self)
        requires
            self.wf(),
        ensures
            sound(self@),
            self@.next < self@.sentences.len() ==> comparable(self@.sentences[self@.next]),
    {
    }

    fn keep_next(&mut self, embedding: Option<Vec<Json>>)
        requires
            old(self).loose(),
            old(self).next < old(self).sentences@.len(),
        ensures
            final(self).sentences == old(self).sentences,
            final(self).narrative == old(self).narrative,
            final(self).embedded == old(self).embedded,
            final(self).next == old(self).next + 1,
            final(self)@ == (DedupModel {
                next: old(self)@.next + 1,
                kept: old(self)@.kept.push(kept_next(old(self)@, embedding_view(embedding))),
                ..old(self)@
            }),
    {
        let ghost m = self@;
        let ghost before = self.kept@;
        let total: usize = self.sentences.len();
        let at = self.next;
        assert(at < total);
        let shape = if self.narrative[at] {
            SentenceShape::Narrative
        } else {
            SentenceShape::Concept
        };
        let k = KeptSentence {
            text: copy_str(self.sentences[at].as_str()),
            index: at,
            shape,
            embedding,
        };
        assert(m.sentences[m.next] == self.sentences@[at as int]@);
        assert(k@ == kept_next(m, embedding_view(embedding)));
        self.kept.push(k);
        assert(kept_models(self.kept@) =~= kept_models(before).push(k@));
        self.next = at + 1;
    }

    fn advance(&mut self)
        requires
            old(self).loose(),
        ensures
            final(self).wf(),
            final(self)@ == advanced(old(self)@),
    {
        let ghost start = self@;
        proof {
            lemma_advanced(start);
        }
        while self.next < self.sentences.len() && !is_comparable(self.sentences[self.next].as_str())
            invariant
                self.loose(),
                advanced(self@) == advanced(start),
            decreases self.sentences.len() - self.next,
        {
            let ghost m = self@;
            assert(m.sentences[m.next] == self.sentences@[self.next as int]@);
            proof {
                lemma_keep(m, None, false);
            }
            self.keep_next(None);
        }
        assert(self.next < self.sentences@.len() ==> self@.sentences[self@.next]
            == self.sentences@[self.next as int]@);
    }

    /// Begins with the sentences of a text.
    pub fn start(sentences: Vec<String>) -> (d: Dedup)
        ensures
            d.wf(),
            d@ == advanced(begun(views(sentences@))),
    {
        let narrative = Pattern::NarrativeMarker.match_each(&sentences);
        let mut d = Dedup {
            sentences,
            narrative,
            next: 0,
            kept: Vec::new(),
            embedded: Vec::new(),
            drops: Vec::new(),
        };
        assert(d@.kept =~= seq![]);
        assert(d@.embedded =~= seq![]);
        assert(d@.drops =~= seq![]);
        d.advance();
        d
    }

    /// The sentence to score, unless all are decided.
    pub fn pending(&self) -> (r: Option<usize>)
        requires
            self.wf(),
        ensures
            r is Some <==> self@.next < self@.sentences.len(),
            r matches Some(i) ==> i == self@.next,
    {
        if self.next < self.sentences.len() {
            Some(self.next)
        } else {
            None
        }
    }

    /// The sentences that the pending one is to be scored against.
    pub fn compared_with(&self) -> (out: Vec<usize>)
        ensures
            ints(out@) == comparison_window(self@.embedded),
    {
        last_embedded(&self.embedded)
    }

    /// Decides on the pending sentence, given its scores in the order of `compared_with`.
    pub fn answer(&mut self, scores: &Vec<Score>, embedding: Option<Vec<Json>>)
        requires
            old(self).wf(),
            old(self)@.next < old(self)@.sentences.len(),
            scores@.len() == comparison_window(old(self)@.embedded).len(),
        ensures
            final(self).wf(),
            final(self)@ == advanced(
                decided(old(self)@, score_models(scores@), embedding_view(embedding)),
            ),
    {
        let ghost m = self@;
        let ghost all = score_models(scores@);
        proof {
            answers_are_sound(m, all, embedding_view(embedding));
            lemma_best_of(all);
        }
        let total: usize = self.sentences.len();
        assert(self.next < total);
        let window = self.compared_with();
        assert(ints(window@).len() == window@.len());
        match best_score(scores) {
            Some(b) => {
                assert(all[b as int] == scores@[b as int]@);
                if scores[b].exceeds_threshold {
                    assert(ints(window@)[b as int] == window@[b as int] as int);
                    let d = Drop {
                        dropped_index: self.next,
                        kept_index: window[b],
                        similarity: scores[b].similarity.copy(),
                    };
                    let ghost before = self.drops@;
                    proof {
                        let k = b + (m.embedded.len() - comparison_window(m.embedded).len());
                        assert(comparison_window(m.embedded)[b as int] == m.embedded[k]);
                        assert(is_kept(m, m.embedded[k]));
                        lemma_drop(m, window@[b as int] as int, scores@[b as int].similarity@);
                    }
                    self.drops.push(d);
                    assert(drop_models(self.drops@) =~= drop_models(before).push(d@));
                    self.next = self.next + 1;
                    assert(self@ == decided(m, all, embedding_view(embedding)));
                    self.advance();
                    return ;
                }
            },
            None => {},
        }
        let at = self.next;
        let ghost indices = self.embedded@;
        proof {
            lemma_keep(m, embedding_view(embedding), true);
        }
        self.keep_next(embedding);
        self.embedded.push(at);
        assert(ints(self.embedded@) =~= ints(indices).push(at as int));
        assert(self@ == decided(m, all, embedding_view(embedding)));
        self.advance();
    }

    /// The indices of the kept sentences that were compared with others.
    pub fn scored(&self) -> (out: Vec<usize>)
        ensures
            ints(out@) == self@.embedded,
    {
        let out = self.embedded.clone();
        assert(out@ =~= self.embedded@);
        out
    }

    /// The outcome, once all sentences are decided. `centrality` orders the scored sentences by how
    /// alike they are to the others.
    pub fn finish(self, centrality: &Vec<u64>, punctuation_restored: bool) -> (r: DedupResult)
        requires
            self.wf(),
            self@.next == self@.sentences.len(),
            centrality@.len() == self@.embedded.len(),
        ensures
            r.original_sentences == self@.sentences.len(),
            r.kept_sentences == self@.kept.len(),
            r.content@ == join(kept_texts(self@.kept), " "@),
            kept_models(r.kept@) == self@.kept,
            drop_models(r.drops@) == self@.drops,
            views(r.summary@) == summary_of(self@.kept, self@.embedded, key_ints(centrality@)),
            r.punctuation_restored == punctuation_restored,
    {
        let summary = extractive_summary(&self.kept, &self.embedded, centrality);
        let texts = texts_of_kept(&self.kept);
        let content = join_texts(&texts, " ");
        assert(self@.kept.len() == self.kept@.len());
        assert(self@.sentences.len() == self.sentences@.len());
        DedupResult {
            original_sentences: self.sentences.len(),
            kept_sentences: self.kept.len(),
            content,
            kept: self.kept,
            drops: self.drops,
            summary,
            punctuation_restored,
        }
    }
}

pub open spec fn key_ints(keys: Seq<u64>) -> Seq<int> {
    keys.map_values(|k: u64| k as int)
}

pub open spec fn kept_texts(kept: Seq<KeptModel>) -> Seq<Seq<char>> {
    kept.map_values(|k: KeptModel| k.text)
}

fn texts_of_kept(kept: &Vec<KeptSentence>) -> (out: Vec<String>)
    ensures
        views(out@) == kept_texts(kept_models(kept@)),
{
    let mut out: Vec<String> = Vec::new();
    let mut i: usize = 0;
    while i < kept.len()
        invariant
            i <= kept@.len(),
            out@.len() == i,
            forall|j: int| 0 <= j < i ==> (#[trigger] out@[j])@ == kept@[j].text@,
        decreases kept.len() - i,
    {
        out.push(copy_str(kept[i].text.as_str()));
        i = i + 1;
    }
    assert(views(out@) =~= kept_texts(kept_models(kept@)));
    out
}

pub fn is_comparable(sentence: &str) -> (b: bool)
    ensures
        b == comparable(sentence@),
{
    let words = word_count(sentence);
    MIN_WORDS <= words && words <= MAX_WORDS
}

/// The last of the indices, as many as are compared.
pub fn last_embedded(embedded: &Vec<usize>) -> (out: Vec<usize>)
    ensures
        ints(out@) == comparison_window(ints(embedded@)),
{
    let mut at: usize = 0;
    if embedded.len() > MAX_COMPARISON_WINDOW {
        at = embedded.len() - MAX_COMPARISON_WINDOW;
    }
    let ghost from = at as int;
    let mut out: Vec<usize> = Vec::new();
    while at < embedded.len()
        invariant
            from <= at <= embedded@.len(),
            out@.len() == at - from,
            forall|j: int| 0 <= j < out@.len() ==> #[trigger] out@[j] == embedded@[from + j],
        decreases embedded.len() - at,
    {
        out.push(embedded[at]);
        at = at + 1;
    }
    assert(ints(out@) =~= comparison_window(ints(embedded@)));
    out
}

/// Where the best score stands.
pub fn best_score(scores: &Vec<Score>) -> (r: Option<usize>)
    ensures
        r is Some <==> best_of(score_models(scores@)) is Some,
        r matches Some(b) ==> best_of(score_models(scores@)) == Some(b as int) && b < scores@.len(),
{
    let ghost all = score_models(scores@);
    let mut best: Option<usize> = None;
    let mut i: usize = 0;
    assert(all.take(0) =~= seq![]);
    while i < scores.len()
        invariant
            i <= scores@.len(),
            all == score_models(scores@),
            best is Some <==> best_of(all.take(i as int)) is Some,
            best matches Some(b) ==> best_of(all.take(i as int)) == Some(b as int) && b < i,
        decreases scores.len() - i,
    {
        let ghost upto = all.take(i + 1);
        assert(upto.drop_last() =~= all.take(i as int));
        assert(upto.last() == scores@[i as int]@);
        best = match best {
            Some(b) => {
                assert(upto[b as int] == scores@[b as int]@);
                if scores[b].key > scores[i].key {
                    Some(b)
                } else {
                    Some(i)
                }
            },
            None => Some(i),
        };
        i = i + 1;
    }
    assert(all.take(all.len() as int) =~= all);
    best
}

/// A fifth of the sentences, rounded, but three to ten and no more than there are.
pub open spec fn summary_size(count: nat) -> nat {
    let fifth = (2 * count + 5) / 10;
    if fifth < SUMMARY_MIN {
        SUMMARY_MIN as nat
    } else if fifth > SUMMARY_MAX {
        SUMMARY_MAX as nat
    } else {
        fifth
    }
}

/// The text of the first kept sentence with an index.
pub open spec fn text_at(kept: Seq<KeptModel>, index: int) -> Option<Seq<char>>
    decreases kept.len(),
{
    if kept.len() == 0 {
        None
    } else if kept[0].index == index {
        Some(kept[0].text)
    } else {
        text_at(kept.drop_first(), index)
    }
}

pub open spec fn texts_at(kept: Seq<KeptModel>, indices: Seq<int>) -> Seq<Seq<char>>
    decreases indices.len(),
{
    if indices.len() == 0 {
        seq![]
    } else {
        with_option(texts_at(kept, indices.drop_last()), text_at(kept, indices.last()))
    }
}

/// The indices of the sentences with the greatest keys, in the order of the text.
pub open spec fn central_indices(embedded: Seq<int>, keys: Seq<int>) -> Seq<int> {
    let by_key = arranged(embedded, stable_order(keys.map_values(|k: int| -k)));
    let top = by_key.take(summary_size(embedded.len()) as int);
    arranged(top, stable_order(top))
}

/// The most central sentences in the order of the text; none where there are few.
pub open spec fn summary_of(kept: Seq<KeptModel>, embedded: Seq<int>, keys: Seq<int>) -> Seq<
    Seq<char>,
> {
    if embedded.len() < MIN_SENTENCES_FOR_SUMMARY {
        seq![]
    } else {
        texts_at(kept, central_indices(embedded, keys))
    }
}

fn size_of_summary(count: usize) -> (n: usize)
    ensures
        n == summary_size(count as nat),
{
    if count >= 50 {
        return SUMMARY_MAX;
    }
    let fifth = (2 * count + 5) / 10;
    if fifth < SUMMARY_MIN {
        SUMMARY_MIN
    } else if fifth > SUMMARY_MAX {
        SUMMARY_MAX
    } else {
        fifth
    }
}

fn widened(keys: &Vec<u64>) -> (out: Vec<u128>)
    ensures
        signed_keys(out@, true) == key_ints(keys@).map_values(|k: int| -k),
        out@.len() == keys@.len(),
{
    let mut out: Vec<u128> = Vec::new();
    let mut i: usize = 0;
    while i < keys.len()
        invariant
            i <= keys@.len(),
            out@.len() == i,
            forall|j: int| 0 <= j < i ==> #[trigger] out@[j] == keys@[j],
        decreases keys.len() - i,
    {
        out.push(keys[i] as u128);
        i = i + 1;
    }
    assert(signed_keys(out@, true) =~= key_ints(keys@).map_values(|k: int| -k));
    out
}

fn index_keys(indices: &Vec<usize>) -> (out: Vec<u128>)
    ensures
        signed_keys(out@, false) == ints(indices@),
        out@.len() == indices@.len(),
{
    let mut out: Vec<u128> = Vec::new();
    let mut i: usize = 0;
    while i < indices.len()
        invariant
            i <= indices@.len(),
            out@.len() == i,
            forall|j: int| 0 <= j < i ==> #[trigger] out@[j] == indices@[j],
        decreases indices.len() - i,
    {
        out.push(indices[i] as u128);
        i = i + 1;
    }
    assert(signed_keys(out@, false) =~= ints(indices@));
    out
}

fn pick(indices: &Vec<usize>, order: &Vec<usize>, count: usize) -> (out: Vec<usize>)
    requires
        count <= order@.len() == indices@.len(),
        distinct_below(ints(order@), indices@.len() as int),
    ensures
        ints(out@) == arranged(ints(indices@), ints(order@)).take(count as int),
{
    let ghost all = arranged(ints(indices@), ints(order@));
    let mut out: Vec<usize> = Vec::new();
    let mut i: usize = 0;
    while i < count
        invariant
            i <= count <= order@.len() == indices@.len(),
            all == arranged(ints(indices@), ints(order@)),
            distinct_below(ints(order@), indices@.len() as int),
            out@.len() == i,
            forall|j: int| 0 <= j < i ==> #[trigger] out@[j] == all[j],
        decreases count - i,
    {
        assert(ints(order@)[i as int] == order@[i as int] as int);
        let at = order[i];
        assert(all[i as int] == indices@[at as int]);
        out.push(indices[at]);
        i = i + 1;
    }
    assert(ints(out@) =~= all.take(count as int));
    out
}

fn find_kept<'a>(kept: &'a Vec<KeptSentence>, index: usize) -> (r: Option<&'a String>)
    ensures
        r is Some <==> text_at(kept_models(kept@), index as int) is Some,
        r matches Some(t) ==> text_at(kept_models(kept@), index as int) == Some(t@),
{
    let ghost all = kept_models(kept@);
    let mut i: usize = 0;
    assert(all.skip(0) =~= all);
    while i < kept.len()
        invariant
            i <= kept@.len(),
            all == kept_models(kept@),
            text_at(all, index as int) == text_at(all.skip(i as int), index as int),
        decreases kept.len() - i,
    {
        assert(all.skip(i as int)[0] == kept@[i as int]@);
        assert(all.skip(i as int).drop_first() =~= all.skip(i + 1));
        if kept[i].index == index {
            return Some(&kept[i].text);
        }
        i = i + 1;
    }
    None
}

/// The sentences that are most like all others, in the order of the text.
pub fn extractive_summary(kept: &Vec<KeptSentence>, embedded: &Vec<usize>, keys: &Vec<u64>) -> (out:
    Vec<String>)
    requires
        keys@.len() == embedded@.len(),
    ensures
        views(out@) == summary_of(kept_models(kept@), ints(embedded@), key_ints(keys@)),
{
    broadcast use lemma_views_push;

    let ghost all = kept_models(kept@);
    let mut out: Vec<String> = Vec::new();
    assert(views(out@) =~= seq![]);
    if embedded.len() < MIN_SENTENCES_FOR_SUMMARY {
        return out;
    }
    let size = size_of_summary(embedded.len());
    let wide = widened(keys);
    let by_key = order_by(&wide, true);
    let top = pick(embedded, &by_key, size);
    let top_keys = index_keys(&top);
    let by_index = order_by(&top_keys, false);
    let central = pick(&top, &by_index, top.len());
    let ghost indices = central_indices(ints(embedded@), key_ints(keys@));
    proof {
        let arranged_top = arranged(ints(top@), ints(by_index@));
        assert(arranged_top.take(top@.len() as int) =~= arranged_top);
        assert(ints(central@) == indices);
    }
    let mut i: usize = 0;
    assert(indices.take(0) =~= seq![]);
    while i < central.len()
        invariant
            i <= central@.len(),
            all == kept_models(kept@),
            ints(central@) == indices,
            views(out@) == texts_at(all, indices.take(i as int)),
        decreases central.len() - i,
    {
        assert(indices.take(i + 1).drop_last() =~= indices.take(i as int));
        assert(indices.take(i + 1).last() == central@[i as int] as int) by {
            assert(ints(central@)[i as int] == central@[i as int] as int);
        }
        match find_kept(kept, central[i]) {
            Some(t) => {
                out.push(copy_str(t.as_str()));
            },
            None => {},
        }
        i = i + 1;
    }
    assert(indices.take(indices.len() as int) =~= indices);
    out
}

/// Of how many sentences one is looked at in turn when a summary is made.
pub open spec fn summary_stride(count: nat) -> nat {
    if count <= MAX_COMPARISON_WINDOW {
        1
    } else {
        (count + MAX_COMPARISON_WINDOW - 1) as nat / MAX_COMPARISON_WINDOW as nat
    }
}

/// The places before `upto` that the sentence at `at` is scored against for the summary.
pub open spec fn peers_before(embedded: Seq<int>, at: int, upto: nat) -> Seq<int>
    decreases upto,
{
    if upto == 0 {
        seq![]
    } else {
        let earlier = peers_before(embedded, at, (upto - 1) as nat);
        if (upto - 1) % summary_stride(embedded.len()) as int == 0 && embedded[upto - 1]
            != embedded[at] {
            earlier.push(upto - 1)
        } else {
            earlier
        }
    }
}

/// The places of the sentences that the one at `at` is scored against for the summary.
pub fn summary_peers(embedded: &Vec<usize>, at: usize) -> (out: Vec<usize>)
    requires
        at < embedded@.len(),
    ensures
        ints(out@) == peers_before(ints(embedded@), at as int, embedded@.len()),
{
    let ghost all = ints(embedded@);
    let count = embedded.len();
    let stride: usize = if count <= MAX_COMPARISON_WINDOW {
        1
    } else {
        (count - 1) / MAX_COMPARISON_WINDOW + 1
    };
    assert(stride == summary_stride(count as nat));
    let mut out: Vec<usize> = Vec::new();
    let mut i: usize = 0;
    assert(ints(out@) =~= seq![]);
    while i < count
        invariant
            i <= count == embedded@.len(),
            at < count,
            all == ints(embedded@),
            stride == summary_stride(count as nat),
            stride > 0,
            ints(out@) == peers_before(all, at as int, i as nat),
        decreases count - i,
    {
        assert(all[i as int] == embedded@[i as int]);
        assert(all[at as int] == embedded@[at as int]);
        if i % stride == 0 && embedded[i] != embedded[at] {
            assert(ints(out@.push(i)) =~= ints(out@).push(i as int));
            out.push(i);
        }
        i = i + 1;
    }
    out
}

/// Whether punctuation should be put in before the text is split.
pub fn wants_punctuation(content: &str, allow_punctuation_restore: bool) -> (b: bool)
    ensures
        b == (allow_punctuation_restore && unpunctuated(trim(content@))),
{
    let trimmed = trim_text(content);
    allow_punctuation_restore && is_effectively_unpunctuated(trimmed.as_str())
}

/// The sentences of a text, of its restored form where there is one.
pub fn sentences_to_dedupe(content: &str, restored: &Option<String>) -> (out: Vec<String>)
    ensures
        views(out@) == sentences_of(
            match option_view(*restored) {
                Some(r) => r,
                None => trim(content@),
            },
        ),
{
    match restored {
        Some(r) => split_sentences(r.as_str()),
        None => {
            let trimmed = trim_text(content);
            split_sentences(trimmed.as_str())
        },
    }
}

/// A summary is short, and there is none of few sentences.
pub proof fn summary_is_short(kept: Seq<KeptModel>, embedded: Seq<int>, keys: Seq<int>)
    requires
        keys.len() == embedded.len(),
    ensures
        summary_of(kept, embedded, keys).len() <= SUMMARY_MAX,
        embedded.len() < MIN_SENTENCES_FOR_SUMMARY ==> summary_of(kept, embedded, keys).len() == 0,
{
    if embedded.len() >= MIN_SENTENCES_FOR_SUMMARY {
        let negated = keys.map_values(|k: int| -k);
        stable_order_sorts(negated);
        let top = arranged(embedded, stable_order(negated)).take(
            summary_size(embedded.len()) as int,
        );
        stable_order_sorts(top);
        lemma_texts_at(kept, central_indices(embedded, keys));
    }
}

proof fn lemma_texts_at(kept: Seq<KeptModel>, indices: Seq<int>)
    ensures
        texts_at(kept, indices).len() <= indices.len(),
    decreases indices.len(),
{
    if indices.len() > 0 {
        lemma_texts_at(kept, indices.drop_last());
    }
}

// ---------------------------------------------------------------------------
// Laws
// ---------------------------------------------------------------------------

/// A sentence is compared with others where it has eight to forty words.
pub open spec fn of_middle_length(sentence: Seq<char>) -> bool {
    8 <= split_words(sentence).len() <= 40
}

/// A sentence tells a story where a phrase of stories stands in it, and else states something.
pub proof fn stories_have_markers(sentence: Seq<char>)
    ensures
        shape_of(sentence) == SentenceShape::Narrative <==> regex_is_match(
            r"(?i)\b(I had|I remember|I once|I worked with|I saw|I met|there was a|there was an|she said|he said|they said|told me|my (client|patient|daughter|son|friend|colleague)|years ago|one day|a client of mine)\b"@,
            sentence,
        ),
        shape_of(sentence) == SentenceShape::Narrative || shape_of(sentence) == SentenceShape::Concept,
{
}

/// Short and long sentences are kept without being compared: all that stand between the decided ones and
/// the next one of middle length. Nothing else changes.
pub proof fn short_and_long_sentences_stay(m: DedupModel, i: int)
    requires
        0 <= m.next <= m.sentences.len(),
    ensures
        ({
            let n = advanced(m);
            let d = n.next - m.next;
            &&& 0 <= d
            &&& n.next <= m.sentences.len()
            &&& n.next < m.sentences.len() ==> of_middle_length(m.sentences[n.next])
            &&& n.sentences == m.sentences
            &&& n.embedded == m.embedded
            &&& n.drops == m.drops
            &&& n.kept.len() == m.kept.len() + d
            &&& n.kept.take(m.kept.len() as int) == m.kept
            &&& 0 <= i < d ==> {
                &&& !of_middle_length(m.sentences[m.next + i])
                &&& n.kept[m.kept.len() + i].text == m.sentences[m.next + i]
                &&& n.kept[m.kept.len() + i].index == m.next + i
                &&& n.kept[m.kept.len() + i].embedding is None
            }
        }),
    decreases m.sentences.len() - m.next,
{
    if m.next < m.sentences.len() && !comparable(m.sentences[m.next]) {
        let next = DedupModel { next: m.next + 1, kept: m.kept.push(kept_next(m, None)), ..m };
        short_and_long_sentences_stay(next, i - 1);
        let n = advanced(m);
        let k = m.kept.len() as int;
        assert(n.kept.take(k + 1)[k] == next.kept[k]);
        assert(n.kept[k] == kept_next(m, None));
        assert(n.kept.take(k) =~= n.kept.take(k + 1).take(k));
        assert(next.kept.take(k) =~= m.kept);
    } else {
        assert(m.kept.take(m.kept.len() as int) =~= m.kept);
    }
}

/// A sentence is compared with the last five hundred kept ones of middle length, or with all of them.
pub proof fn the_last_are_compared(embedded: Seq<int>)
    ensures
        embedded.len() <= 500 ==> comparison_window(embedded) == embedded,
        embedded.len() > 500 ==> comparison_window(embedded).len() == 500 && embedded.take(
            embedded.len() - 500,
        ) + comparison_window(embedded) == embedded,
{
    if embedded.len() > 500 {
        assert(embedded.take(embedded.len() - 500) + comparison_window(embedded) =~= embedded);
    }
}

/// The sentence goes where its greatest score, the last of them where there are several, exceeds the
/// threshold, for the sentence that it has that score with. Else it stays and is compared with later
/// ones.
pub proof fn the_greatest_score_decides(
    m: DedupModel,
    scores: Seq<ScoreModel>,
    embedding: Option<Seq<JsonModel>>,
    b: int,
)
    requires
        0 <= m.next < m.sentences.len(),
        scores.len() == 0 || (0 <= b < scores.len() && (forall|i: int|
            0 <= i < scores.len() ==> (#[trigger] scores[i]).key <= scores[b].key) && (forall|i: int|
            b < i < scores.len() ==> (#[trigger] scores[i]).key < scores[b].key)),
    ensures
        ({
            let n = decided(m, scores, embedding);
            &&& n.sentences == m.sentences
            &&& n.next == m.next + 1
            &&& scores.len() > 0 && scores[b].exceeds ==> {
                &&& n.kept == m.kept
                &&& n.embedded == m.embedded
                &&& n.drops == m.drops.push(
                    DropModel {
                        dropped: m.next,
                        kept: comparison_window(m.embedded)[b],
                        similarity: scores[b].similarity,
                    },
                )
            }
            &&& scores.len() == 0 || !scores[b].exceeds ==> {
                &&& n.drops == m.drops
                &&& n.embedded == m.embedded.push(m.next)
                &&& n.kept.len() == m.kept.len() + 1
                &&& n.kept.drop_last() == m.kept
                &&& n.kept.last().text == m.sentences[m.next]
                &&& n.kept.last().index == m.next
                &&& n.kept.last().shape == shape_of(m.sentences[m.next])
                &&& n.kept.last().embedding == embedding
            }
        }),
{
    lemma_best_is(scores, b);
    let n = decided(m, scores, embedding);
    if scores.len() == 0 || !scores[b].exceeds {
        assert(n.kept.drop_last() =~= m.kept);
    }
}

proof fn lemma_best_is(scores: Seq<ScoreModel>, b: int)
    requires
        scores.len() == 0 || (0 <= b < scores.len() && (forall|i: int|
            0 <= i < scores.len() ==> (#[trigger] scores[i]).key <= scores[b].key) && (forall|i: int|
            b < i < scores.len() ==> (#[trigger] scores[i]).key < scores[b].key)),
    ensures
        scores.len() > 0 ==> best_of(scores) == Some(b),
        scores.len() == 0 ==> best_of(scores) is None,
    decreases scores.len(),
{
    if scores.len() > 0 {
        let rest = scores.drop_last();
        lemma_best_of(rest);
        if b < rest.len() {
            assert forall|i: int| 0 <= i < rest.len() implies (#[trigger] rest[i]).key <= rest[b].key by {
                assert(scores[i].key <= scores[b].key);
            }
            assert forall|i: int| b < i < rest.len() implies (#[trigger] rest[i]).key < rest[b].key by {
                assert(scores[i].key < scores[b].key);
            }
            lemma_best_is(rest, b);
            assert(scores[scores.len() - 1].key < scores[b].key);
        } else if rest.len() > 0 {
            let a = best_of(rest)->0;
            assert(rest[a] == scores[a]);
            assert(scores[a].key <= scores[b].key);
        }
    }
}

/// A summary has a fifth of the sentences, to the nearest number, but at least three and at most ten.
pub proof fn a_summary_is_a_fifth(count: nat)
    ensures
        3 <= summary_size(count) <= 10,
        3 < summary_size(count) < 10 ==> -5 < 10 * summary_size(count) - 2 * count <= 5,
        13 <= count <= 49 ==> -5 < 10 * summary_size(count) - 2 * count <= 5,
        count < 13 ==> summary_size(count) == 3,
        count >= 50 ==> summary_size(count) == 10,
{
}

/// The sentences of a summary are told in the sequence of the text, and none of the others is more
/// central than one of them.
pub proof fn the_most_central_are_told(embedded: Seq<int>, keys: Seq<int>) -> (chosen: Seq<int>)
    requires
        keys.len() == embedded.len(),
        embedded.len() >= 4,
        forall|i: int, j: int| 0 <= i < j < embedded.len() ==> #[trigger] embedded[i] < #[trigger] embedded[j],
    ensures
        chosen.len() == (if summary_size(embedded.len()) < embedded.len() {
            summary_size(embedded.len())
        } else {
            embedded.len()
        }),
        distinct_below(chosen, embedded.len() as int),
        forall|c: int, g: int|
            0 <= c < chosen.len() && 0 <= g < embedded.len() && !chosen.contains(g)
                ==> keys[#[trigger] chosen[c]] >= #[trigger] keys[g],
        central_indices(embedded, keys).len() == chosen.len(),
        forall|x: int| #[trigger]
            central_indices(embedded, keys).contains(x) <==> exists|c: int|
                0 <= c < chosen.len() && embedded[#[trigger] chosen[c]] == x,
        forall|i: int, j: int|
            0 <= i < j < central_indices(embedded, keys).len() ==> #[trigger] central_indices(
                embedded,
                keys,
            )[i] < #[trigger] central_indices(embedded, keys)[j],
{
    let negated = keys.map_values(|k: int| -k);
    let order = stable_order(negated);
    stable_order_sorts(negated);
    let size = summary_size(embedded.len()) as int;
    let by_key = arranged(embedded, order);
    let all = embedded.len() as int;
    a_summary_is_a_fifth(embedded.len());
    lemma_summary_fits(embedded.len());
    let chosen = order.take(size);
    let top = by_key.take(size);
    assert(top =~= arranged(embedded, chosen));
    stable_order_sorts(top);
    let out = central_indices(embedded, keys);
    let arrange = stable_order(top);
    assert forall|c: int, g: int|
        0 <= c < chosen.len() && 0 <= g < embedded.len() && !chosen.contains(g) implies keys[#[trigger] chosen[c]]
        >= #[trigger] keys[g] by {
        assert(order.contains(g));
        let p = choose|p: int| 0 <= p < order.len() && order[p] == g;
        if p < size {
            assert(chosen[p] == g);
        }
        assert(chosen[c] == order[c]);
        assert(negated[order[c]] <= negated[order[p]]);
    }
    assert forall|i: int, j: int| 0 <= i < j < out.len() implies #[trigger] out[i] < #[trigger] out[j] by {
        let a = arrange[i];
        let b = arrange[j];
        assert(out[i] == top[a] && out[j] == top[b]);
        assert(chosen[a] != chosen[b]);
        assert(top[a] == embedded[chosen[a]] && top[b] == embedded[chosen[b]]);
        if chosen[a] < chosen[b] {
            assert(embedded[chosen[a]] < embedded[chosen[b]]);
        } else {
            assert(embedded[chosen[b]] < embedded[chosen[a]]);
        }
    }
    assert forall|x: int| #[trigger] out.contains(x) <==> exists|c: int|
        0 <= c < chosen.len() && embedded[#[trigger] chosen[c]] == x by {
        if out.contains(x) {
            let i = choose|i: int| 0 <= i < out.len() && out[i] == x;
            assert(embedded[chosen[arrange[i]]] == x);
        }
        if exists|c: int| 0 <= c < chosen.len() && embedded[#[trigger] chosen[c]] == x {
            let c = choose|c: int| 0 <= c < chosen.len() && embedded[#[trigger] chosen[c]] == x;
            assert(arrange.contains(c));
            let i = choose|i: int| 0 <= i < arrange.len() && arrange[i] == c;
            assert(out[i] == x);
        }
    }
    chosen
}

proof fn lemma_summary_fits(count: nat)
    requires
        count >= 4,
    ensures
        summary_size(count) <= count,
{
}

/// Each index gives the text of the kept sentence with that index.
pub proof fn summaries_are_sentences(kept: Seq<KeptModel>, indices: Seq<int>, k: int)
    requires
        0 <= k < kept.len(),
        forall|j: int| 0 <= j < k ==> (#[trigger] kept[j]).index != kept[k].index,
    ensures
        text_at(kept, kept[k].index) == Some(kept[k].text),
        texts_at(kept, indices.push(kept[k].index)) == texts_at(kept, indices).push(kept[k].text),
{
    lemma_text_at(kept, k);
    assert(indices.push(kept[k].index).drop_last() =~= indices);
}

proof fn lemma_text_at(kept: Seq<KeptModel>, k: int)
    requires
        0 <= k < kept.len(),
        forall|j: int| 0 <= j < k ==> (#[trigger] kept[j]).index != kept[k].index,
    ensures
        text_at(kept, kept[k].index) == Some(kept[k].text),
    decreases kept.len(),
{
    if k > 0 {
        let rest = kept.drop_first();
        assert(kept[0].index != kept[k].index);
        assert forall|j: int| 0 <= j < k - 1 implies (#[trigger] rest[j]).index != rest[k - 1].index by {
            assert(rest[j] == kept[j + 1]);
        }
        lemma_text_at(rest, k - 1);
    }
}

/// For the summary a sentence is scored against all others, or against every so-manieth, so that it is
/// against at most five hundred.
pub proof fn peers_are_spread(embedded: Seq<int>, at: int, upto: nat, i: int)
    requires
        upto <= embedded.len(),
    ensures
        ({
            let stride = summary_stride(embedded.len()) as int;
            &&& stride > 0
            &&& embedded.len() <= 500 ==> stride == 1
            &&& embedded.len() > 500 ==> 500 * (stride - 1) < embedded.len() <= 500 * stride
            &&& peers_before(embedded, at, upto).contains(i) <==> 0 <= i < upto && i % stride == 0
                && embedded[i] != embedded[at]
        }),
    decreases upto,
{
    if upto > 0 {
        let earlier = peers_before(embedded, at, (upto - 1) as nat);
        let out = peers_before(embedded, at, upto);
        peers_are_spread(embedded, at, (upto - 1) as nat, i);
        if earlier.contains(i) {
            let k = choose|k: int| 0 <= k < earlier.len() && earlier[k] == i;
            assert(out[k] == i);
        }
        if out.contains(i) {
            let k = choose|k: int| 0 <= k < out.len() && out[k] == i;
            if k < earlier.len() {
                assert(earlier[k] == i);
            }
        }
        if out.len() > earlier.len() {
            assert(out[out.len() - 1] == upto - 1);
        }
    }
}

/// Of four sentences of middle length or more the most central are told, and of fewer none.
pub proof fn four_sentences_have_a_summary(kept: Seq<KeptModel>, embedded: Seq<int>, keys: Seq<int>)
    ensures
        embedded.len() < 4 ==> summary_of(kept, embedded, keys) == Seq::<Seq<char>>::empty(),
        embedded.len() >= 4 ==> summary_of(kept, embedded, keys) == texts_at(
            kept,
            central_indices(embedded, keys),
        ),
{
}

} // verus!
