//! Which sentences repeat an earlier one, by the words they share or by an outside judgement.
use crate::json::{models, Json, JsonModel};
use crate::order::ascending_below;
use crate::semantic_dedup::{comparable, embedding_view, is_comparable};
use crate::text::{copy_str, join, join_range, split_words, views, words};
use vstd::prelude::*;
use vstd::utf8::encode_utf8;

verus! {

/// The words of a shingle.
pub const SHINGLE_WORDS: usize = 5;

pub const MINHASH_NUM_HASHES: usize = 128;

/// A polynomial in 31 over the bytes, modulo two to the sixty-fourth.
pub open spec fn byte_hash(bytes: Seq<u8>, seed: int) -> int
    decreases bytes.len(),
{
    if bytes.len() == 0 {
        seed
    } else {
        (31 * byte_hash(bytes.drop_last(), seed) + bytes.last()) % 0x1_0000_0000_0000_0000
    }
}

pub open spec fn text_hash(s: Seq<char>, seed: int) -> int {
    byte_hash(encode_utf8(s), seed)
}

pub fn hash_fn(s: &str, seed: u32) -> (h: u64)
    ensures
        h == text_hash(s@, seed as int),
{
    let bytes = s.as_bytes();
    let mut hash: u64 = seed as u64;
    let mut i: usize = 0;
    assert(bytes@.take(0) =~= seq![]);
    while i < bytes.len()
        invariant
            i <= bytes@.len(),
            hash == byte_hash(bytes@.take(i as int), seed as int),
        decreases bytes.len() - i,
    {
        assert(bytes@.take(i + 1).drop_last() =~= bytes@.take(i as int));
        hash = ((31 * (hash as u128) + bytes[i] as u128) % 0x1_0000_0000_0000_0000) as u64;
        i = i + 1;
    }
    assert(bytes@.take(bytes@.len() as int) =~= bytes@);
    hash
}

/// Every run of `k` words joined by spaces; the whole text where it has fewer words.
pub open spec fn shingles_of(text: Seq<char>, k: int) -> Seq<Seq<char>> {
    let words = split_words(text);
    if words.len() < k {
        seq![text]
    } else {
        Seq::new((words.len() - k + 1) as nat, |i: int| join(words.subrange(i, i + k), " "@))
    }
}

pub fn shingles(text: &str, k: usize) -> (out: Vec<String>)
    requires
        k > 0,
    ensures
        views(out@) == shingles_of(text@, k as int),
{
    let ws = words(text);
    let ghost all = views(ws@);
    let total: usize = ws.len();
    let mut out: Vec<String> = Vec::new();
    if total < k {
        out.push(copy_str(text));
        assert(views(out@) =~= seq![text@]);
        return out;
    }
    let mut i: usize = 0;
    while i <= total - k
        invariant
            k > 0,
            k <= total == ws@.len(),
            all == views(ws@),
            i <= total - k + 1,
            out@.len() == i,
            forall|j: int|
                0 <= j < i ==> (#[trigger] out@[j])@ == join(all.subrange(j, j + k), " "@),
        decreases total - i,
    {
        out.push(join_range(&ws, i, i + k));
        i = i + 1;
    }
    assert(views(out@) =~= shingles_of(text@, k as int));
    out
}

/// The least hash of the shingles under a seed.
pub open spec fn least_hash(shingles: Seq<Seq<char>>, seed: int) -> int
    decreases shingles.len(),
{
    if shingles.len() == 0 {
        u64::MAX as int
    } else {
        let least = least_hash(shingles.drop_last(), seed);
        let hash = text_hash(shingles.last(), seed);
        if hash < least {
            hash
        } else {
            least
        }
    }
}

pub open spec fn signature_of(text: Seq<char>, num_hashes: nat) -> Seq<int> {
    Seq::new(num_hashes, |seed: int| least_hash(shingles_of(text, SHINGLE_WORDS as int), seed))
}

pub open spec fn hash_ints(v: Seq<u64>) -> Seq<int> {
    v.map_values(|h: u64| h as int)
}

fn least_hash_of(shingles: &Vec<String>, seed: u32) -> (h: u64)
    ensures
        h == least_hash(views(shingles@), seed as int),
{
    let ghost all = views(shingles@);
    let mut least: u64 = u64::MAX;
    let mut i: usize = 0;
    assert(all.take(0) =~= seq![]);
    while i < shingles.len()
        invariant
            i <= shingles@.len(),
            all == views(shingles@),
            least == least_hash(all.take(i as int), seed as int),
        decreases shingles.len() - i,
    {
        assert(all.take(i + 1).drop_last() =~= all.take(i as int));
        assert(all.take(i + 1).last() == shingles@[i as int]@);
        let hash = hash_fn(shingles[i].as_str(), seed);
        if hash < least {
            least = hash;
        }
        i = i + 1;
    }
    assert(all.take(all.len() as int) =~= all);
    least
}

/// For each seed the least hash of the shingles of five words.
pub fn minhash_signature(text: &str, num_hashes: usize) -> (out: Vec<u64>)
    requires
        num_hashes <= u32::MAX,
    ensures
        hash_ints(out@) == signature_of(text@, num_hashes as nat),
{
    let parts = shingles(text, SHINGLE_WORDS);
    let mut out: Vec<u64> = Vec::new();
    let mut i: usize = 0;
    while i < num_hashes
        invariant
            i <= num_hashes <= u32::MAX,
            views(parts@) == shingles_of(text@, SHINGLE_WORDS as int),
            out@.len() == i,
            forall|j: int| 0 <= j < i ==> #[trigger] out@[j] == least_hash(views(parts@), j),
        decreases num_hashes - i,
    {
        out.push(least_hash_of(&parts, i as u32));
        i = i + 1;
    }
    assert(hash_ints(out@) =~= signature_of(text@, num_hashes as nat));
    out
}

/// At how many places the two agree.
pub open spec fn agreements(a: Seq<int>, b: Seq<int>) -> nat
    decreases a.len(),
{
    if a.len() == 0 || b.len() == 0 {
        0
    } else {
        (if a[0] == b[0] {
            1nat
        } else {
            0
        }) + agreements(a.drop_first(), b.drop_first())
    }
}

fn count_agreements(a: &Vec<u64>, b: &Vec<u64>) -> (n: usize)
    ensures
        n == agreements(hash_ints(a@), hash_ints(b@)),
{
    let ghost x = hash_ints(a@);
    let ghost y = hash_ints(b@);
    let mut n: usize = 0;
    let mut i: usize = 0;
    assert(x.skip(0) =~= x);
    assert(y.skip(0) =~= y);
    while i < a.len() && i < b.len()
        invariant
            i <= a@.len(),
            i <= b@.len(),
            n <= i,
            x == hash_ints(a@),
            y == hash_ints(b@),
            n + agreements(x.skip(i as int), y.skip(i as int)) == agreements(x, y),
        decreases a.len() - i,
    {
        assert(x.skip(i as int).drop_first() =~= x.skip(i + 1));
        assert(y.skip(i as int).drop_first() =~= y.skip(i + 1));
        if a[i] == b[i] {
            n = n + 1;
        }
        i = i + 1;
    }
    n
}

/// More than four fifths of the hashes agree.
pub open spec fn share_words(a: Seq<char>, b: Seq<char>) -> bool {
    5 * agreements(
        signature_of(a, MINHASH_NUM_HASHES as nat),
        signature_of(b, MINHASH_NUM_HASHES as nat),
    ) > 4 * MINHASH_NUM_HASHES
}

#[derive(Debug)]
pub struct KeptSentence {
    pub text: String,
    pub embedding: Option<Vec<Json>>,
}

#[derive(Debug)]
pub struct CascadeResult {
    pub kept: Vec<KeptSentence>,
    pub removed_count: usize,
}

pub struct KeptText {
    pub text: Seq<char>,
    pub embedding: Option<Seq<JsonModel>>,
}

impl View for KeptSentence {
    type V = KeptText;

    open spec fn view(&self) -> KeptText {
        KeptText { text: self.text@, embedding: embedding_view(self.embedding) }
    }
}

pub open spec fn kept_list(v: Seq<KeptSentence>) -> Seq<KeptText> {
    v.map_values(|k: KeptSentence| k@)
}

/// What is known of the sentences: which pairs mean the same, and the numbers to report.
pub struct Meaning {
    pub same: Seq<Seq<bool>>,
    pub embeddings: Seq<Option<Seq<JsonModel>>>,
}

/// The two sentences are alike.
pub open spec fn alike(sentences: Seq<Seq<char>>, same: Seq<Seq<bool>>, i: int, j: int) -> bool {
    share_words(sentences[i], sentences[j]) || same[i][j]
}

/// Sentence `j` is like an earlier one that does not itself repeat another. Only sentences of the
/// right length count.
pub open spec fn repeats(sentences: Seq<Seq<char>>, same: Seq<Seq<bool>>, j: int) -> bool
    decreases j,
{
    comparable(sentences[j]) && exists|i: int|
        0 <= i < j && comparable(sentences[i]) && !repeats(sentences, same, i) && #[trigger] alike(
            sentences,
            same,
            i,
            j,
        )
}

/// The comparable sentences before `n` that repeat none.
pub open spec fn fresh_before(sentences: Seq<Seq<char>>, m: Meaning, n: nat) -> Seq<KeptText>
    decreases n,
{
    if n == 0 {
        seq![]
    } else {
        let earlier = fresh_before(sentences, m, (n - 1) as nat);
        if comparable(sentences[n - 1]) && !repeats(sentences, m.same, n - 1) {
            earlier.push(KeptText { text: sentences[n - 1], embedding: m.embeddings[n - 1] })
        } else {
            earlier
        }
    }
}

/// The sentences before `n` that are not compared.
pub open spec fn uncompared_before(sentences: Seq<Seq<char>>, n: nat) -> Seq<KeptText>
    decreases n,
{
    if n == 0 {
        seq![]
    } else {
        let earlier = uncompared_before(sentences, (n - 1) as nat);
        if !comparable(sentences[n - 1]) {
            earlier.push(KeptText { text: sentences[n - 1], embedding: None })
        } else {
            earlier
        }
    }
}

pub open spec fn repeated_before(sentences: Seq<Seq<char>>, same: Seq<Seq<bool>>, n: nat) -> nat
    decreases n,
{
    if n == 0 {
        0
    } else {
        repeated_before(sentences, same, (n - 1) as nat) + (if repeats(sentences, same, n - 1) {
            1nat
        } else {
            0
        })
    }
}

pub open spec fn table(v: Seq<Vec<bool>>) -> Seq<Seq<bool>> {
    v.map_values(|row: Vec<bool>| row@)
}

pub open spec fn embedding_views(v: Seq<Option<Vec<Json>>>) -> Seq<Option<Seq<JsonModel>>> {
    v.map_values(|e: Option<Vec<Json>>| embedding_view(e))
}

pub(crate) fn copy_embedding(e: &Option<Vec<Json>>) -> (r: Option<Vec<Json>>)
    ensures
        embedding_view(r) == embedding_view(*e),
{
    match e {
        Some(v) => {
            let mut out: Vec<Json> = Vec::new();
            let mut i: usize = 0;
            while i < v.len()
                invariant
                    i <= v@.len(),
                    out@.len() == i,
                    forall|j: int| 0 <= j < i ==> (#[trigger] out@[j])@ == v@[j]@,
                decreases v.len() - i,
            {
                out.push(v[i].copy());
                i = i + 1;
            }
            assert(models(out@) =~= models(v@));
            Some(out)
        },
        None => None,
    }
}

fn find_comparable(sentences: &Vec<String>) -> (out: Vec<bool>)
    ensures
        out@.len() == sentences@.len(),
        forall|i: int| 0 <= i < out@.len() ==> #[trigger] out@[i] == comparable(sentences@[i]@),
{
    let mut out: Vec<bool> = Vec::new();
    let mut i: usize = 0;
    while i < sentences.len()
        invariant
            i <= sentences@.len(),
            out@.len() == i,
            forall|j: int| 0 <= j < i ==> #[trigger] out@[j] == comparable(sentences@[j]@),
        decreases sentences.len() - i,
    {
        out.push(is_comparable(sentences[i].as_str()));
        i = i + 1;
    }
    out
}

/// The signatures of the comparable sentences.
pub open spec fn signed(sentences: Seq<String>, signatures: Seq<Vec<u64>>) -> bool {
    &&& signatures.len() == sentences.len()
    &&& forall|i: int|
        0 <= i < signatures.len() && comparable(sentences[i]@) ==> hash_ints(
            (#[trigger] signatures[i])@,
        ) == signature_of(sentences[i]@, MINHASH_NUM_HASHES as nat)
}

spec fn signatures_known(
    sentences: Seq<String>,
    compared: Seq<bool>,
    signatures: Seq<Vec<u64>>,
) -> bool {
    &&& compared.len() == sentences.len()
    &&& forall|i: int| 0 <= i < compared.len() ==> #[trigger] compared[i] == comparable(sentences[i]@)
    &&& signed(sentences, signatures)
}

/// The signature of each sentence that is compared; the others have none.
pub fn sign_sentences(sentences: &Vec<String>) -> (out: Vec<Vec<u64>>)
    ensures
        signed(sentences@, out@),
{
    let mut out: Vec<Vec<u64>> = Vec::new();
    let mut i: usize = 0;
    while i < sentences.len()
        invariant
            i <= sentences@.len(),
            out@.len() == i,
            forall|j: int|
                0 <= j < i && comparable(sentences@[j]@) ==> hash_ints((#[trigger] out@[j])@)
                    == signature_of(sentences@[j]@, MINHASH_NUM_HASHES as nat),
        decreases sentences.len() - i,
    {
        if is_comparable(sentences[i].as_str()) {
            out.push(minhash_signature(sentences[i].as_str(), MINHASH_NUM_HASHES));
        } else {
            out.push(Vec::new());
        }
        i = i + 1;
    }
    out
}

/// Whether sentence `at` is like one of the earlier ones that repeat none.
fn is_repeat(
    sentences: &Vec<String>,
    compared: &Vec<bool>,
    signatures: &Vec<Vec<u64>>,
    same: &Vec<Vec<bool>>,
    repeated: &Vec<bool>,
    at: usize,
) -> (b: bool)
    requires
        signatures_known(sentences@, compared@, signatures@),
        at == repeated@.len(),
        at < sentences@.len() == same@.len(),
        forall|i: int| 0 <= i < same@.len() ==> (#[trigger] same@[i])@.len() == sentences@.len(),
        forall|i: int|
            0 <= i < at ==> #[trigger] repeated@[i] == repeats(views(sentences@), table(same@), i),
    ensures
        b == repeats(views(sentences@), table(same@), at as int),
{
    let ghost all = views(sentences@);
    let ghost t = table(same@);
    assert(all[at as int] == sentences@[at as int]@);
    assert(compared@[at as int] == comparable(all[at as int]));
    if !compared[at] {
        return false;
    }
    let mut i: usize = 0;
    while i < at
        invariant
            i <= at,
            at == repeated@.len(),
            at < sentences@.len() == same@.len(),
            all == views(sentences@),
            t == table(same@),
            signatures_known(sentences@, compared@, signatures@),
            compared@[at as int],
            comparable(all[at as int]),
            forall|i: int|
                0 <= i < same@.len() ==> (#[trigger] same@[i])@.len() == sentences@.len(),
            forall|i: int| 0 <= i < at ==> #[trigger] repeated@[i] == repeats(all, t, i),
            forall|k: int|
                0 <= k < i && comparable(all[k]) && !repeats(all, t, k) ==> !#[trigger] alike(
                    all,
                    t,
                    k,
                    at as int,
                ),
        decreases at - i,
    {
        assert(all[i as int] == sentences@[i as int]@);
        assert(compared@[i as int] == comparable(all[i as int]));
        assert(repeated@[i as int] == repeats(all, t, i as int));
        if compared[i] && !repeated[i] {
            assert(hash_ints(signatures@[i as int]@) == signature_of(
                sentences@[i as int]@,
                MINHASH_NUM_HASHES as nat,
            ));
            assert(hash_ints(signatures@[at as int]@) == signature_of(
                sentences@[at as int]@,
                MINHASH_NUM_HASHES as nat,
            ));
            let n = count_agreements(&signatures[i], &signatures[at]);
            proof {
                lemma_agreements(hash_ints(signatures@[i as int]@), hash_ints(signatures@[at as int]@));
            }
            assert(t[i as int] == same@[i as int]@);
            if 5 * n > 4 * MINHASH_NUM_HASHES || same[i][at] {
                assert(alike(all, t, i as int, at as int));
                return true;
            }
        }
        i = i + 1;
    }
    false
}

proof fn lemma_agreements(a: Seq<int>, b: Seq<int>)
    ensures
        agreements(a, b) <= a.len(),
    decreases a.len(),
{
    if a.len() > 0 && b.len() > 0 {
        lemma_agreements(a.drop_first(), b.drop_first());
    }
}

fn find_repeats(
    sentences: &Vec<String>,
    compared: &Vec<bool>,
    signatures: &Vec<Vec<u64>>,
    same: &Vec<Vec<bool>>,
) -> (repeated: Vec<bool>)
    requires
        signatures_known(sentences@, compared@, signatures@),
        sentences@.len() == same@.len(),
        forall|i: int| 0 <= i < same@.len() ==> (#[trigger] same@[i])@.len() == sentences@.len(),
    ensures
        repeated@.len() == sentences@.len(),
        forall|i: int|
            0 <= i < repeated@.len() ==> #[trigger] repeated@[i] == repeats(
                views(sentences@),
                table(same@),
                i,
            ),
{
    let mut repeated: Vec<bool> = Vec::new();
    while repeated.len() < sentences.len()
        invariant
            repeated@.len() <= sentences@.len() == same@.len(),
            signatures_known(sentences@, compared@, signatures@),
            forall|i: int|
                0 <= i < same@.len() ==> (#[trigger] same@[i])@.len() == sentences@.len(),
            forall|i: int|
                0 <= i < repeated@.len() ==> #[trigger] repeated@[i] == repeats(
                    views(sentences@),
                    table(same@),
                    i,
                ),
        decreases sentences.len() - repeated.len(),
    {
        let b = is_repeat(sentences, compared, signatures, same, &repeated, repeated.len());
        repeated.push(b);
    }
    repeated
}

pub struct CascadeDedup;

impl CascadeDedup {
    /// Keeps the comparable sentences that repeat none, and behind them those that are not compared.
    /// `same_meaning[i][j]` says that sentences `i` and `j` mean the same; `embeddings` holds what is
    /// to be reported of a sentence.
    pub fn dedupe(
        sentences: &Vec<String>,
        same_meaning: &Vec<Vec<bool>>,
        embeddings: &Vec<Option<Vec<Json>>>,
    ) -> (r: CascadeResult)
        requires
            same_meaning@.len() == sentences@.len(),
            forall|i: int|
                0 <= i < same_meaning@.len() ==> (#[trigger] same_meaning@[i])@.len()
                    == sentences@.len(),
            embeddings@.len() == sentences@.len(),
        ensures
            ({
                let m = Meaning {
                    same: table(same_meaning@),
                    embeddings: embedding_views(embeddings@),
                };
                let all = views(sentences@);
                &&& kept_list(r.kept@) == fresh_before(all, m, all.len()) + uncompared_before(
                    all,
                    all.len(),
                )
                &&& r.removed_count == repeated_before(all, m.same, all.len())
            }),
    {
        let signatures = sign_sentences(sentences);
        CascadeDedup::dedupe_signed(sentences, &signatures, same_meaning, embeddings)
    }

    /// The same, where the signatures are known already.
    pub fn dedupe_signed(
        sentences: &Vec<String>,
        signatures: &Vec<Vec<u64>>,
        same_meaning: &Vec<Vec<bool>>,
        embeddings: &Vec<Option<Vec<Json>>>,
    ) -> (r: CascadeResult)
        requires
            signed(sentences@, signatures@),
            same_meaning@.len() == sentences@.len(),
            forall|i: int|
                0 <= i < same_meaning@.len() ==> (#[trigger] same_meaning@[i])@.len()
                    == sentences@.len(),
            embeddings@.len() == sentences@.len(),
        ensures
            ({
                let m = Meaning {
                    same: table(same_meaning@),
                    embeddings: embedding_views(embeddings@),
                };
                let all = views(sentences@);
                &&& kept_list(r.kept@) == fresh_before(all, m, all.len()) + uncompared_before(
                    all,
                    all.len(),
                )
                &&& r.removed_count == repeated_before(all, m.same, all.len())
            }),
    {
        let compared = find_comparable(sentences);
        let repeated = find_repeats(sentences, &compared, signatures, same_meaning);
        let ghost all = views(sentences@);
        let ghost m = Meaning {
            same: table(same_meaning@),
            embeddings: embedding_views(embeddings@),
        };
        let mut kept: Vec<KeptSentence> = Vec::new();
        let mut removed_count: usize = 0;
        let mut i: usize = 0;
        assert(kept_list(kept@) =~= seq![]);
        while i < sentences.len()
            invariant
                i <= sentences@.len(),
                sentences@.len() == compared@.len() == repeated@.len() == embeddings@.len(),
                all == views(sentences@),
                m.embeddings == embedding_views(embeddings@),
                forall|j: int|
                    0 <= j < compared@.len() ==> #[trigger] compared@[j] == comparable(
                        sentences@[j]@,
                    ),
                forall|j: int|
                    0 <= j < repeated@.len() ==> #[trigger] repeated@[j] == repeats(all, m.same, j),
                removed_count <= i,
                removed_count == repeated_before(all, m.same, i as nat),
                kept_list(kept@) == fresh_before(all, m, i as nat),
            decreases sentences.len() - i,
        {
            assert(all[i as int] == sentences@[i as int]@);
            assert(compared@[i as int] == comparable(all[i as int]));
            assert(repeated@[i as int] == repeats(all, m.same, i as int));
            if repeated[i] {
                removed_count = removed_count + 1;
            } else if compared[i] {
                let k = KeptSentence {
                    text: copy_str(sentences[i].as_str()),
                    embedding: copy_embedding(&embeddings[i]),
                };
                assert(m.embeddings[i as int] == embedding_view(embeddings@[i as int]));
                assert(kept_list(kept@.push(k)) =~= kept_list(kept@).push(k@));
                kept.push(k);
            }
            i = i + 1;
        }
        let ghost fresh = kept_list(kept@);
        let mut i: usize = 0;
        assert(fresh + seq![] =~= fresh);
        while i < sentences.len()
            invariant
                i <= sentences@.len() == compared@.len(),
                all == views(sentences@),
                forall|j: int|
                    0 <= j < compared@.len() ==> #[trigger] compared@[j] == comparable(
                        sentences@[j]@,
                    ),
                kept_list(kept@) == fresh + uncompared_before(all, i as nat),
            decreases sentences.len() - i,
        {
            assert(all[i as int] == sentences@[i as int]@);
            assert(compared@[i as int] == comparable(all[i as int]));
            if !compared[i] {
                let k = KeptSentence { text: copy_str(sentences[i].as_str()), embedding: None };
                let ghost have = uncompared_before(all, i as nat);
                assert(kept_list(kept@.push(k)) =~= kept_list(kept@).push(k@));
                assert((fresh + have).push(k@) =~= fresh + have.push(k@));
                kept.push(k);
            }
            i = i + 1;
        }
        CascadeResult { kept, removed_count }
    }
}

/// Every sentence is kept or counted as removed.
pub proof fn nothing_is_lost(sentences: Seq<Seq<char>>, m: Meaning, n: nat)
    ensures
        fresh_before(sentences, m, n).len() + uncompared_before(sentences, n).len()
            + repeated_before(sentences, m.same, n) == n,
    decreases n,
{
    if n > 0 {
        nothing_is_lost(sentences, m, (n - 1) as nat);
    }
}

/// A sentence that repeats another word for word goes, unless that one goes for an earlier one.
pub proof fn identical_sentences_collapse(
    sentences: Seq<Seq<char>>,
    same: Seq<Seq<bool>>,
    i: int,
    j: int,
)
    requires
        0 <= i < j < sentences.len(),
        sentences[i] == sentences[j],
        comparable(sentences[i]),
        !repeats(sentences, same, i),
    ensures
        repeats(sentences, same, j),
{
    let signature = signature_of(sentences[i], MINHASH_NUM_HASHES as nat);
    lemma_agrees_with_itself(signature);
    assert(alike(sentences, same, i, j));
}

proof fn lemma_agrees_with_itself(a: Seq<int>)
    ensures
        agreements(a, a) == a.len(),
    decreases a.len(),
{
    if a.len() > 0 {
        lemma_agrees_with_itself(a.drop_first());
    }
}

// ---------------------------------------------------------------------------
// Laws
// ---------------------------------------------------------------------------

/// The sentence has eight to forty words.
pub open spec fn of_middle_length(sentence: Seq<char>) -> bool {
    8 <= split_words(sentence).len() <= 40
}

/// How many of the first `n` hashes of two sentences agree.
pub open spec fn hashes_in_common(a: Seq<char>, b: Seq<char>, n: nat) -> nat
    decreases n,
{
    if n == 0 {
        0
    } else {
        hashes_in_common(a, b, (n - 1) as nat) + if least_hash(shingles_of(a, 5), n - 1) == least_hash(
            shingles_of(b, 5),
            n - 1,
        ) {
            1nat
        } else {
            0
        }
    }
}

proof fn lemma_agreements_push(x: Seq<int>, y: Seq<int>, a: int, b: int)
    requires
        x.len() == y.len(),
    ensures
        agreements(x.push(a), y.push(b)) == agreements(x, y) + if a == b {
            1nat
        } else {
            0
        },
    decreases x.len(),
{
    if x.len() > 0 {
        lemma_agreements_push(x.drop_first(), y.drop_first(), a, b);
        assert(x.push(a).drop_first() =~= x.drop_first().push(a));
        assert(y.push(b).drop_first() =~= y.drop_first().push(b));
    } else {
        assert(x.push(a).drop_first() =~= Seq::<int>::empty());
        assert(agreements(x.push(a).drop_first(), y.push(b).drop_first()) == 0);
    }
}

proof fn lemma_in_common(a: Seq<char>, b: Seq<char>, n: nat)
    ensures
        agreements(signature_of(a, n), signature_of(b, n)) == hashes_in_common(a, b, n),
    decreases n,
{
    if n > 0 {
        let m = (n - 1) as nat;
        lemma_in_common(a, b, m);
        let x = least_hash(shingles_of(a, 5), n - 1);
        let y = least_hash(shingles_of(b, 5), n - 1);
        lemma_agreements_push(signature_of(a, m), signature_of(b, m), x, y);
        assert(signature_of(a, n) =~= signature_of(a, m).push(x));
        assert(signature_of(b, n) =~= signature_of(b, m).push(y));
    }
}

/// Sentences share their words where more than four fifths of 128 hashes agree.
pub proof fn most_hashes_agree(a: Seq<char>, b: Seq<char>)
    ensures
        share_words(a, b) <==> 5 * hashes_in_common(a, b, 128) > 4 * 128,
        share_words(a, b) <==> share_words(b, a),
{
    lemma_in_common(a, b, 128);
    lemma_in_common(b, a, 128);
    lemma_in_common_both_ways(a, b, 128);
}

proof fn lemma_in_common_both_ways(a: Seq<char>, b: Seq<char>, n: nat)
    ensures
        hashes_in_common(a, b, n) == hashes_in_common(b, a, n),
    decreases n,
{
    if n > 0 {
        lemma_in_common_both_ways(a, b, (n - 1) as nat);
    }
}

proof fn lemma_hash_range(bytes: Seq<u8>, seed: int)
    requires
        0 <= seed < 0x1_0000_0000_0000_0000,
    ensures
        0 <= byte_hash(bytes, seed) < 0x1_0000_0000_0000_0000,
    decreases bytes.len(),
{
    if bytes.len() > 0 {
        lemma_hash_range(bytes.drop_last(), seed);
    }
}

/// The least hash is that of one of the shingles, and none has a lesser one.
pub proof fn the_least_hash_is_least(shingles: Seq<Seq<char>>, seed: int, i: int)
    requires
        0 <= seed < 0x1_0000_0000_0000_0000,
        0 <= i < shingles.len(),
    ensures
        least_hash(shingles, seed) <= text_hash(shingles[i], seed),
        exists|j: int|
            0 <= j < shingles.len() && least_hash(shingles, seed) == text_hash(
                #[trigger] shingles[j],
                seed,
            ),
    decreases shingles.len(),
{
    let rest = shingles.drop_last();
    let n = shingles.len() - 1;
    let least = least_hash(rest, seed);
    let hash = text_hash(shingles.last(), seed);
    lemma_hash_range(encode_utf8(shingles.last()), seed);
    if n > 0 {
        if i < n {
            the_least_hash_is_least(rest, seed, i);
            assert(rest[i] == shingles[i]);
        } else {
            the_least_hash_is_least(rest, seed, 0);
        }
        if hash < least {
            assert(least_hash(shingles, seed) == text_hash(shingles[n], seed));
        } else {
            let j = choose|j: int|
                0 <= j < rest.len() && least == text_hash(#[trigger] rest[j], seed);
            assert(least_hash(shingles, seed) == text_hash(shingles[j], seed));
        }
    } else {
        assert(least_hash(shingles, seed) == text_hash(shingles[0], seed));
    }
}

/// Every run of words is a shingle, and there are no others; a text with fewer words is one itself.
pub proof fn shingles_are_runs_of_words(text: Seq<char>, k: int, i: int)
    requires
        k > 0,
    ensures
        split_words(text).len() < k ==> shingles_of(text, k) == seq![text],
        split_words(text).len() >= k ==> shingles_of(text, k).len() + k == split_words(text).len() + 1,
        0 <= i <= split_words(text).len() - k ==> shingles_of(text, k)[i] == join(
            split_words(text).skip(i).take(k),
            " "@,
        ),
{
    let ws = split_words(text);
    if 0 <= i <= ws.len() - k {
        assert(ws.subrange(i, i + k) =~= ws.skip(i).take(k));
    }
}

/// Of the sentences of middle length that stay no two are alike.
pub proof fn kept_sentences_are_unlike(sentences: Seq<Seq<char>>, same: Seq<Seq<bool>>, i: int, j: int)
    requires
        0 <= i < j < sentences.len(),
        of_middle_length(sentences[i]),
        of_middle_length(sentences[j]),
        !repeats(sentences, same, i),
        !repeats(sentences, same, j),
    ensures
        !same[i][j],
        5 * hashes_in_common(sentences[i], sentences[j], 128) <= 512,
{
    most_hashes_agree(sentences[i], sentences[j]);
    if alike(sentences, same, i, j) {
        assert(repeats(sentences, same, j));
    }
}

/// A sentence goes only where it has a middle length and is like an earlier one that stays: by its words,
/// or because the two mean the same.
pub proof fn repeated_sentences_have_a_model(sentences: Seq<Seq<char>>, same: Seq<Seq<bool>>, j: int)
    requires
        0 <= j < sentences.len(),
        repeats(sentences, same, j),
    ensures
        of_middle_length(sentences[j]),
        exists|i: int|
            0 <= i < j && of_middle_length(#[trigger] sentences[i]) && !repeats(sentences, same, i) && (
            same[i][j] || 5 * hashes_in_common(sentences[i], sentences[j], 128) > 512),
{
    let i = choose|i: int|
        0 <= i < j && comparable(sentences[i]) && !repeats(sentences, same, i) && #[trigger] alike(
            sentences,
            same,
            i,
            j,
        );
    most_hashes_agree(sentences[i], sentences[j]);
    assert(of_middle_length(sentences[i]));
}

/// The sentences of middle length that repeat none come first, in their sequence and with their
/// embeddings.
pub proof fn fresh_sentences_come_first(sentences: Seq<Seq<char>>, m: Meaning, n: nat) -> (places: Seq<int>)
    requires
        n <= sentences.len(),
    ensures
        ascending_below(places, n as int),
        forall|i: int| #[trigger]
            places.contains(i) <==> 0 <= i < n && of_middle_length(sentences[i]) && !repeats(
                sentences,
                m.same,
                i,
            ),
        fresh_before(sentences, m, n).len() == places.len(),
        forall|k: int|
            0 <= k < places.len() ==> {
                let kept = #[trigger] fresh_before(sentences, m, n)[k];
                kept.text == sentences[places[k]] && kept.embedding == m.embeddings[places[k]]
            },
    decreases n,
{
    if n > 0 {
        let before = fresh_sentences_come_first(sentences, m, (n - 1) as nat);
        let fresh = comparable(sentences[n - 1]) && !repeats(sentences, m.same, n - 1);
        let places = if fresh {
            before.push(n - 1)
        } else {
            before
        };
        assert(of_middle_length(sentences[n - 1]) == comparable(sentences[n - 1]));
        lemma_pushed(before, places, n - 1, fresh);
        assert forall|i: int| #[trigger] places.contains(i) <==> 0 <= i < n && of_middle_length(
            sentences[i],
        ) && !repeats(sentences, m.same, i) by {
            assert(before.contains(i) <==> 0 <= i < n - 1 && of_middle_length(sentences[i]) && !repeats(
                sentences,
                m.same,
                i,
            ));
        }
        places
    } else {
        seq![]
    }
}

proof fn lemma_pushed(before: Seq<int>, places: Seq<int>, at: int, more: bool)
    requires
        0 <= at,
        ascending_below(before, at),
        places == (if more {
            before.push(at)
        } else {
            before
        }),
    ensures
        ascending_below(places, at + 1),
        forall|i: int| #[trigger] places.contains(i) <==> before.contains(i) || more && i == at,
{
    assert forall|i: int| #[trigger] places.contains(i) <==> before.contains(i) || more && i == at by {
        if before.contains(i) {
            let k = choose|k: int| 0 <= k < before.len() && before[k] == i;
            assert(places[k] == i);
        }
        if places.contains(i) {
            let k = choose|k: int| 0 <= k < places.len() && places[k] == i;
            if k < before.len() {
                assert(before[k] == i);
            }
        }
        if more {
            assert(places[places.len() - 1] == at);
        }
    }
}

/// The sentences that are too short or too long come last, in their sequence and without embeddings.
pub proof fn other_sentences_come_last(sentences: Seq<Seq<char>>, n: nat) -> (places: Seq<int>)
    requires
        n <= sentences.len(),
    ensures
        ascending_below(places, n as int),
        forall|i: int| #[trigger]
            places.contains(i) <==> 0 <= i < n && !of_middle_length(sentences[i]),
        uncompared_before(sentences, n).len() == places.len(),
        forall|k: int|
            0 <= k < places.len() ==> {
                let kept = #[trigger] uncompared_before(sentences, n)[k];
                kept.text == sentences[places[k]] && kept.embedding is None
            },
    decreases n,
{
    if n > 0 {
        let before = other_sentences_come_last(sentences, (n - 1) as nat);
        let other = !comparable(sentences[n - 1]);
        let places = if other {
            before.push(n - 1)
        } else {
            before
        };
        assert(of_middle_length(sentences[n - 1]) == comparable(sentences[n - 1]));
        lemma_pushed(before, places, n - 1, other);
        assert forall|i: int| #[trigger] places.contains(i) <==> 0 <= i < n && !of_middle_length(
            sentences[i],
        ) by {
            assert(before.contains(i) <==> 0 <= i < n - 1 && !of_middle_length(sentences[i]));
        }
        places
    } else {
        seq![]
    }
}

/// The hash of a sequence goes on from that of its start: each byte is added to 31 times the hash so far,
/// in 64 bits.
pub proof fn hashes_go_on(a: Seq<u8>, b: Seq<u8>, byte: u8, seed: int)
    requires
        0 <= seed,
    ensures
        byte_hash(seq![], seed) == seed,
        byte_hash(a + b, seed) == byte_hash(b, byte_hash(a, seed)),
        byte_hash(seq![byte], seed) == (31 * seed + byte) % 0x1_0000_0000_0000_0000,
    decreases b.len(),
{
    assert(seq![byte].drop_last() =~= Seq::<u8>::empty());
    if b.len() == 0 {
        assert(a + b =~= a);
    } else {
        hashes_go_on(a, b.drop_last(), byte, seed);
        assert((a + b).drop_last() =~= a + b.drop_last());
    }
}

} // verus!
