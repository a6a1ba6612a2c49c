//! The corpus store: articles, their chunks, and pairwise similarities.
//!
//! This is the in-memory model of the pipeline's persistent state.  The
//! application loads the durable copy into a [`Store`] by replaying these
//! verified operations and persists it again afterwards; every rule the
//! store lives by — one row per filename, one chunk per (article, index),
//! one similarity per unordered pair, never drop a computed embedding —
//! is stated and enforced here.
//!
//! Similarity scores are carried as signed millionths, so a cosine value
//! of `0.4` is the integer `400_000`.

use vstd::pervasive::VecAdditionalExecFns;
use vstd::prelude::*;

use crate::text::bytes_eq;
use crate::text::copy_bytes;
use crate::text::copy_words;

verus! {

/// One known article.  `id` is assigned by the store; `filename` is the
/// natural key.
pub struct ArticleRow {
    pub id: u64,
    pub title: Vec<u8>,
    pub url: Vec<u8>,
    pub date: Option<Vec<u8>>,
    pub filename: Vec<u8>,
    pub is_draft: bool,
}

#[verifier::ext_equal]
pub struct ArticleView {
    pub id: u64,
    pub title: Seq<u8>,
    pub url: Seq<u8>,
    pub date: Option<Seq<u8>>,
    pub filename: Seq<u8>,
    pub is_draft: bool,
}

pub open spec fn opt_bytes_view(o: Option<Vec<u8>>) -> Option<Seq<u8>> {
    match o {
        Some(v) => Some(v@),
        None => None,
    }
}

pub open spec fn opt_words_view(o: Option<Vec<u64>>) -> Option<Seq<u64>> {
    match o {
        Some(v) => Some(v@),
        None => None,
    }
}

impl View for ArticleRow {
    type V = ArticleView;

    open spec fn view(&self) -> ArticleView {
        ArticleView {
            id: self.id,
            title: self.title@,
            url: self.url@,
            date: opt_bytes_view(self.date),
            filename: self.filename@,
            is_draft: self.is_draft,
        }
    }
}

/// One chunk of an article's body.  `embedding` is `None` until the
/// embed stage has run for it.
pub struct ChunkRow {
    pub article: u64,
    pub index: u64,
    pub text: Vec<u8>,
    pub embedding: Option<Vec<u64>>,
}

#[verifier::ext_equal]
pub struct ChunkView {
    pub article: u64,
    pub index: u64,
    pub text: Seq<u8>,
    pub embedding: Option<Seq<u64>>,
}

impl View for ChunkRow {
    type V = ChunkView;

    open spec fn view(&self) -> ChunkView {
        ChunkView {
            article: self.article,
            index: self.index,
            text: self.text@,
            embedding: opt_words_view(self.embedding),
        }
    }
}

/// The similarity of one unordered pair of distinct articles, held with
/// `a < b`.  The score is in signed millionths.
#[derive(Clone, Copy, PartialEq, Eq, Structural)]
pub struct PairRow {
    pub a: u64,
    pub b: u64,
    pub similarity: i64,
}

/// What a parsed source file contributes to the store.
pub struct GatheredFile {
    pub filename: Vec<u8>,
    pub title: Vec<u8>,
    pub url: Vec<u8>,
    pub date: Option<Vec<u8>>,
    pub is_draft: bool,
    pub chunks: Vec<Vec<u8>>,
}

#[verifier::ext_equal]
pub struct FileView {
    pub filename: Seq<u8>,
    pub title: Seq<u8>,
    pub url: Seq<u8>,
    pub date: Option<Seq<u8>>,
    pub is_draft: bool,
    pub chunks: Seq<Seq<u8>>,
}

impl View for GatheredFile {
    type V = FileView;

    open spec fn view(&self) -> FileView {
        FileView {
            filename: self.filename@,
            title: self.title@,
            url: self.url@,
            date: opt_bytes_view(self.date),
            is_draft: self.is_draft,
            chunks: self.chunks.deep_view(),
        }
    }
}

#[verifier::ext_equal]
pub struct StoreView {
    pub articles: Seq<ArticleView>,
    pub chunks: Seq<ChunkView>,
    pub pairs: Seq<PairRow>,
}

/// The corpus store.  Its contents are only reachable through the
/// verified operations, which keep [`store_wf`] standing.
pub struct Store {
    articles: Vec<ArticleRow>,
    chunks: Vec<ChunkRow>,
    pairs: Vec<PairRow>,
}

impl View for Store {
    type V = StoreView;

    closed spec fn view(&self) -> StoreView {
        StoreView {
            articles: Seq::new(self.articles@.len(), |i: int| self.articles@[i]@),
            chunks: Seq::new(self.chunks@.len(), |i: int| self.chunks@[i]@),
            pairs: self.pairs@,
        }
    }
}

/// Article rows are numbered 1.. in order, and no filename repeats.
pub open spec fn articles_wf(arts: Seq<ArticleView>) -> bool {
    &&& forall|i: int| 0 <= i < arts.len() ==> (#[trigger] arts[i]).id == i + 1
    &&& forall|i: int, j: int|
        #![trigger arts[i].filename, arts[j].filename]
        0 <= i < j < arts.len() ==> arts[i].filename != arts[j].filename
}

/// No two chunk rows share an (article, index) key.
pub open spec fn chunks_wf(chunks: Seq<ChunkView>) -> bool {
    forall|i: int, j: int|
        #![trigger chunks[i].article, chunks[j].article]
        0 <= i < j < chunks.len() ==> !(chunks[i].article == chunks[j].article
            && chunks[i].index == chunks[j].index)
}

/// Pairs are normalized (`a < b`) and no unordered pair repeats.
pub open spec fn pairs_wf(pairs: Seq<PairRow>) -> bool {
    &&& forall|i: int| 0 <= i < pairs.len() ==> (#[trigger] pairs[i]).a < pairs[i].b
    &&& forall|i: int, j: int|
        #![trigger pairs[i].a, pairs[j].a]
        0 <= i < j < pairs.len() ==> !(pairs[i].a == pairs[j].a && pairs[i].b == pairs[j].b)
}

/// The store's invariant: every operation establishes and preserves it.
pub open spec fn store_wf(s: StoreView) -> bool {
    &&& articles_wf(s.articles)
    &&& chunks_wf(s.chunks)
    &&& pairs_wf(s.pairs)
}

// ---------------------------------------------------------------------
// First-match searches, with their characterizations.
// ---------------------------------------------------------------------

/// Index of the first article with this filename, or -1.
pub open spec fn find_article_by_filename(arts: Seq<ArticleView>, filename: Seq<u8>) -> int
    decreases arts.len(),
{
    if arts.len() == 0 {
        -1
    } else if arts[0].filename == filename {
        0
    } else {
        let r = find_article_by_filename(arts.drop_first(), filename);
        if r < 0 {
            -1
        } else {
            r + 1
        }
    }
}

/// A scan that saw no match before `k`, and a match (or the end) at `k`,
/// has found exactly what the spec search finds.
pub proof fn lemma_find_article_by_filename(arts: Seq<ArticleView>, filename: Seq<u8>, k: int)
    requires
        0 <= k <= arts.len(),
        forall|j: int| 0 <= j < k ==> (#[trigger] arts[j]).filename != filename,
        k == arts.len() || arts[k].filename == filename,
    ensures
        k < arts.len() ==> find_article_by_filename(arts, filename) == k,
        k == arts.len() ==> find_article_by_filename(arts, filename) == -1,
    decreases arts.len(),
{
    if arts.len() == 0 {
    } else if arts[0].filename == filename {
        assert(k == 0);
    } else {
        assert(k >= 1);
        let rest = arts.drop_first();
        assert(forall|j: int| 0 <= j < k - 1 ==> (#[trigger] rest[j]).filename != filename);
        if k < arts.len() {
            assert(rest[k - 1].filename == filename);
        }
        lemma_find_article_by_filename(rest, filename, k - 1);
    }
}

/// What the article search's result means.
pub proof fn lemma_find_article_props(arts: Seq<ArticleView>, filename: Seq<u8>)
    ensures
        find_article_by_filename(arts, filename) == -1 ==> forall|j: int|
            0 <= j < arts.len() ==> (#[trigger] arts[j]).filename != filename,
        find_article_by_filename(arts, filename) >= 0 ==> find_article_by_filename(arts, filename)
            < arts.len() && arts[find_article_by_filename(arts, filename)].filename == filename
            && forall|j: int|
            0 <= j < find_article_by_filename(arts, filename) ==> (#[trigger] arts[j]).filename
                != filename,
    decreases arts.len(),
{
    if arts.len() > 0 && arts[0].filename != filename {
        let rest = arts.drop_first();
        lemma_find_article_props(rest, filename);
        let r = find_article_by_filename(arts, filename);
        if r == -1 {
            assert forall|j: int| 0 <= j < arts.len() implies (#[trigger] arts[j]).filename
                != filename by {
                if j > 0 {
                    assert(arts[j] == rest[j - 1]);
                }
            }
        } else {
            assert(arts[r] == rest[r - 1]);
            assert forall|j: int| 0 <= j < r implies (#[trigger] arts[j]).filename != filename by {
                if j > 0 {
                    assert(arts[j] == rest[j - 1]);
                }
            }
        }
    }
}

/// Index of the first chunk of this article with this text, or -1.
pub open spec fn find_chunk_by_text(chunks: Seq<ChunkView>, article: u64, text: Seq<u8>) -> int
    decreases chunks.len(),
{
    if chunks.len() == 0 {
        -1
    } else if chunks[0].article == article && chunks[0].text == text {
        0
    } else {
        let r = find_chunk_by_text(chunks.drop_first(), article, text);
        if r < 0 {
            -1
        } else {
            r + 1
        }
    }
}

pub proof fn lemma_find_chunk_by_text(chunks: Seq<ChunkView>, article: u64, text: Seq<u8>, k: int)
    requires
        0 <= k <= chunks.len(),
        forall|j: int|
            0 <= j < k ==> !((#[trigger] chunks[j]).article == article && chunks[j].text == text),
        k == chunks.len() || (chunks[k].article == article && chunks[k].text == text),
    ensures
        k < chunks.len() ==> find_chunk_by_text(chunks, article, text) == k,
        k == chunks.len() ==> find_chunk_by_text(chunks, article, text) == -1,
    decreases chunks.len(),
{
    if chunks.len() == 0 {
    } else if chunks[0].article == article && chunks[0].text == text {
        assert(k == 0);
    } else {
        assert(k >= 1);
        let rest = chunks.drop_first();
        assert(forall|j: int|
            0 <= j < k - 1 ==> !((#[trigger] rest[j]).article == article && rest[j].text == text));
        if k < chunks.len() {
            assert(rest[k - 1].article == article && rest[k - 1].text == text);
        }
        lemma_find_chunk_by_text(rest, article, text, k - 1);
    }
}

/// Index of the chunk with this (article, index) key, or -1.
pub open spec fn find_chunk_by_key(chunks: Seq<ChunkView>, article: u64, index: u64) -> int
    decreases chunks.len(),
{
    if chunks.len() == 0 {
        -1
    } else if chunks[0].article == article && chunks[0].index == index {
        0
    } else {
        let r = find_chunk_by_key(chunks.drop_first(), article, index);
        if r < 0 {
            -1
        } else {
            r + 1
        }
    }
}

pub proof fn lemma_find_chunk_by_key(chunks: Seq<ChunkView>, article: u64, index: u64, k: int)
    requires
        0 <= k <= chunks.len(),
        forall|j: int|
            0 <= j < k ==> !((#[trigger] chunks[j]).article == article && chunks[j].index
                == index),
        k == chunks.len() || (chunks[k].article == article && chunks[k].index == index),
    ensures
        k < chunks.len() ==> find_chunk_by_key(chunks, article, index) == k,
        k == chunks.len() ==> find_chunk_by_key(chunks, article, index) == -1,
    decreases chunks.len(),
{
    if chunks.len() == 0 {
    } else if chunks[0].article == article && chunks[0].index == index {
        assert(k == 0);
    } else {
        assert(k >= 1);
        let rest = chunks.drop_first();
        assert(forall|j: int|
            0 <= j < k - 1 ==> !((#[trigger] rest[j]).article == article && rest[j].index
                == index));
        if k < chunks.len() {
            assert(rest[k - 1].article == article && rest[k - 1].index == index);
        }
        lemma_find_chunk_by_key(rest, article, index, k - 1);
    }
}

/// What the key search's result means.
pub proof fn lemma_find_chunk_by_key_props(chunks: Seq<ChunkView>, article: u64, index: u64)
    ensures
        find_chunk_by_key(chunks, article, index) == -1 ==> forall|j: int|
            0 <= j < chunks.len() ==> !((#[trigger] chunks[j]).article == article
                && chunks[j].index == index),
        find_chunk_by_key(chunks, article, index) >= 0 ==> find_chunk_by_key(
            chunks,
            article,
            index,
        ) < chunks.len() && chunks[find_chunk_by_key(chunks, article, index)].article == article
            && chunks[find_chunk_by_key(chunks, article, index)].index == index,
    decreases chunks.len(),
{
    if chunks.len() > 0 && !(chunks[0].article == article && chunks[0].index == index) {
        let rest = chunks.drop_first();
        lemma_find_chunk_by_key_props(rest, article, index);
        let r = find_chunk_by_key(chunks, article, index);
        if r == -1 {
            assert forall|j: int| 0 <= j < chunks.len() implies !((#[trigger] chunks[j]).article
                == article && chunks[j].index == index) by {
                if j > 0 {
                    assert(chunks[j] == rest[j - 1]);
                }
            }
        } else {
            assert(chunks[r] == rest[r - 1]);
        }
    }
}

/// What the text search's result means.
pub proof fn lemma_find_chunk_by_text_props(chunks: Seq<ChunkView>, article: u64, text: Seq<u8>)
    ensures
        find_chunk_by_text(chunks, article, text) == -1 ==> forall|j: int|
            0 <= j < chunks.len() ==> !((#[trigger] chunks[j]).article == article
                && chunks[j].text == text),
        find_chunk_by_text(chunks, article, text) >= 0 ==> find_chunk_by_text(
            chunks,
            article,
            text,
        ) < chunks.len() && chunks[find_chunk_by_text(chunks, article, text)].article == article
            && chunks[find_chunk_by_text(chunks, article, text)].text == text,
    decreases chunks.len(),
{
    if chunks.len() > 0 && !(chunks[0].article == article && chunks[0].text == text) {
        let rest = chunks.drop_first();
        lemma_find_chunk_by_text_props(rest, article, text);
        let r = find_chunk_by_text(chunks, article, text);
        if r == -1 {
            assert forall|j: int| 0 <= j < chunks.len() implies !((#[trigger] chunks[j]).article
                == article && chunks[j].text == text) by {
                if j > 0 {
                    assert(chunks[j] == rest[j - 1]);
                }
            }
        } else {
            assert(chunks[r] == rest[r - 1]);
        }
    }
}

/// Index of the pair row keyed (a, b), or -1.
pub open spec fn find_pair(pairs: Seq<PairRow>, a: u64, b: u64) -> int
    decreases pairs.len(),
{
    if pairs.len() == 0 {
        -1
    } else if pairs[0].a == a && pairs[0].b == b {
        0
    } else {
        let r = find_pair(pairs.drop_first(), a, b);
        if r < 0 {
            -1
        } else {
            r + 1
        }
    }
}

pub proof fn lemma_find_pair(pairs: Seq<PairRow>, a: u64, b: u64, k: int)
    requires
        0 <= k <= pairs.len(),
        forall|j: int| 0 <= j < k ==> !((#[trigger] pairs[j]).a == a && pairs[j].b == b),
        k == pairs.len() || (pairs[k].a == a && pairs[k].b == b),
    ensures
        k < pairs.len() ==> find_pair(pairs, a, b) == k,
        k == pairs.len() ==> find_pair(pairs, a, b) == -1,
    decreases pairs.len(),
{
    if pairs.len() == 0 {
    } else if pairs[0].a == a && pairs[0].b == b {
        assert(k == 0);
    } else {
        assert(k >= 1);
        let rest = pairs.drop_first();
        assert(forall|j: int| 0 <= j < k - 1 ==> !((#[trigger] rest[j]).a == a && rest[j].b == b));
        if k < pairs.len() {
            assert(rest[k - 1].a == a && rest[k - 1].b == b);
        }
        lemma_find_pair(rest, a, b, k - 1);
    }
}

/// What the pair search's result means.
pub proof fn lemma_find_pair_props(pairs: Seq<PairRow>, a: u64, b: u64)
    ensures
        find_pair(pairs, a, b) == -1 ==> forall|j: int|
            0 <= j < pairs.len() ==> !((#[trigger] pairs[j]).a == a && pairs[j].b == b),
        find_pair(pairs, a, b) >= 0 ==> find_pair(pairs, a, b) < pairs.len() && pairs[find_pair(
            pairs,
            a,
            b,
        )].a == a && pairs[find_pair(pairs, a, b)].b == b,
    decreases pairs.len(),
{
    if pairs.len() > 0 && !(pairs[0].a == a && pairs[0].b == b) {
        let rest = pairs.drop_first();
        lemma_find_pair_props(rest, a, b);
        let r = find_pair(pairs, a, b);
        if r == -1 {
            assert forall|j: int| 0 <= j < pairs.len() implies !((#[trigger] pairs[j]).a == a
                && pairs[j].b == b) by {
                if j > 0 {
                    assert(pairs[j] == rest[j - 1]);
                }
            }
        } else {
            assert(pairs[r] == rest[r - 1]);
        }
    }
}

// ---------------------------------------------------------------------
// The gather stage's model.
// ---------------------------------------------------------------------

/// The article list after one file is gathered: an existing row (same
/// filename) is refreshed in place and keeps its id; a new file gets the
/// next id at the end.
pub open spec fn gather_upsert_articles(arts: Seq<ArticleView>, f: FileView) -> Seq<ArticleView> {
    let r = find_article_by_filename(arts, f.filename);
    if r >= 0 {
        arts.update(
            r,
            ArticleView {
                id: arts[r].id,
                title: f.title,
                url: f.url,
                date: f.date,
                filename: arts[r].filename,
                is_draft: f.is_draft,
            },
        )
    } else {
        arts.push(
            ArticleView {
                id: (arts.len() + 1) as u64,
                title: f.title,
                url: f.url,
                date: f.date,
                filename: f.filename,
                is_draft: f.is_draft,
            },
        )
    }
}

/// The id under which the file's rows are stored.
pub open spec fn gather_id(arts: Seq<ArticleView>, f: FileView) -> u64 {
    let r = find_article_by_filename(arts, f.filename);
    if r >= 0 {
        arts[r].id
    } else {
        (arts.len() + 1) as u64
    }
}

/// One chunk text folded into the chunk rows.  A text already present
/// anywhere in the article is left alone (it may carry an embedding); a
/// changed text replaces the row at its index; a new index is appended,
/// unembedded.
pub open spec fn gather_chunk_one(
    chunks: Seq<ChunkView>,
    article: u64,
    text: Seq<u8>,
    index: u64,
) -> Seq<ChunkView> {
    if find_chunk_by_text(chunks, article, text) >= 0 {
        chunks
    } else {
        let r = find_chunk_by_key(chunks, article, index);
        if r >= 0 {
            chunks.update(
                r,
                ChunkView {
                    article: chunks[r].article,
                    index: chunks[r].index,
                    text: text,
                    embedding: chunks[r].embedding,
                },
            )
        } else {
            chunks.push(ChunkView { article, index, text, embedding: None })
        }
    }
}

/// The chunk rows after the texts from position `k` on are folded in.
pub open spec fn gather_chunks_model(
    chunks: Seq<ChunkView>,
    article: u64,
    texts: Seq<Seq<u8>>,
    k: int,
) -> Seq<ChunkView>
    decreases texts.len() - k,
{
    if k < 0 || k >= texts.len() {
        chunks
    } else {
        gather_chunks_model(
            gather_chunk_one(chunks, article, texts[k], k as u64),
            article,
            texts,
            k + 1,
        )
    }
}

/// The whole store after one file is gathered.
pub open spec fn gather_file_model(s: StoreView, f: FileView) -> StoreView {
    StoreView {
        articles: gather_upsert_articles(s.articles, f),
        chunks: gather_chunks_model(s.chunks, gather_id(s.articles, f), f.chunks, 0),
        pairs: s.pairs,
    }
}

// ---------------------------------------------------------------------
// Models of the later stages' operations and queries.
// ---------------------------------------------------------------------

/// The chunk rows after one embedding is stored: the keyed row gets the
/// vector; a missing key changes nothing.
pub open spec fn set_embedding_model(
    chunks: Seq<ChunkView>,
    article: u64,
    index: u64,
    bits: Seq<u64>,
) -> Seq<ChunkView> {
    let r = find_chunk_by_key(chunks, article, index);
    if r >= 0 {
        chunks.update(
            r,
            ChunkView {
                article: chunks[r].article,
                index: chunks[r].index,
                text: chunks[r].text,
                embedding: Some(bits),
            },
        )
    } else {
        chunks
    }
}

/// The pair rows after one score is recorded: normalized to `a < b`,
/// overwriting the pair's row if it exists, appending otherwise.
pub open spec fn record_similarity_model(
    pairs: Seq<PairRow>,
    a: u64,
    b: u64,
    similarity: i64,
) -> Seq<PairRow> {
    let lo = if a < b {
        a
    } else {
        b
    };
    let hi = if a < b {
        b
    } else {
        a
    };
    let row = PairRow { a: lo, b: hi, similarity };
    let r = find_pair(pairs, lo, hi);
    if r >= 0 {
        pairs.update(r, row)
    } else {
        pairs.push(row)
    }
}

/// Ids of the non-draft articles, in store (id) order.
pub open spec fn active_ids_spec(arts: Seq<ArticleView>) -> Seq<u64>
    decreases arts.len(),
{
    if arts.len() == 0 {
        Seq::empty()
    } else {
        let rest = active_ids_spec(arts.drop_last());
        if arts.last().is_draft {
            rest
        } else {
            rest.push(arts.last().id)
        }
    }
}

/// The embeddings this article's chunks carry, in row order.
pub open spec fn embedded_of(chunks: Seq<ChunkView>, article: u64) -> Seq<Seq<u64>>
    decreases chunks.len(),
{
    if chunks.len() == 0 {
        Seq::empty()
    } else {
        let rest = embedded_of(chunks.drop_last(), article);
        let c = chunks.last();
        if c.article == article {
            match c.embedding {
                Some(e) => rest.push(e),
                None => rest,
            }
        } else {
            rest
        }
    }
}

/// A chunk still waiting for its embedding.
pub struct ChunkTodo {
    pub index: u64,
    pub text: Vec<u8>,
}

#[verifier::ext_equal]
pub struct ChunkTodoView {
    pub index: u64,
    pub text: Seq<u8>,
}

impl View for ChunkTodo {
    type V = ChunkTodoView;

    open spec fn view(&self) -> ChunkTodoView {
        ChunkTodoView { index: self.index, text: self.text@ }
    }
}

pub open spec fn todos_view(v: Seq<ChunkTodo>) -> Seq<ChunkTodoView> {
    Seq::new(v.len(), |i: int| v[i]@)
}

/// This article's chunks that carry no embedding yet, in row order.
pub open spec fn unembedded_of(chunks: Seq<ChunkView>, article: u64) -> Seq<ChunkTodoView>
    decreases chunks.len(),
{
    if chunks.len() == 0 {
        Seq::empty()
    } else {
        let rest = unembedded_of(chunks.drop_last(), article);
        let c = chunks.last();
        if c.article == article && c.embedding is None {
            rest.push(ChunkTodoView { index: c.index, text: c.text })
        } else {
            rest
        }
    }
}

/// One computed embedding, addressed to its chunk.
pub struct ChunkEmbedding {
    pub article: u64,
    pub chunk: u64,
    pub bits: Vec<u64>,
}

#[verifier::ext_equal]
pub struct ChunkEmbeddingView {
    pub article: u64,
    pub chunk: u64,
    pub bits: Seq<u64>,
}

impl View for ChunkEmbedding {
    type V = ChunkEmbeddingView;

    open spec fn view(&self) -> ChunkEmbeddingView {
        ChunkEmbeddingView { article: self.article, chunk: self.chunk, bits: self.bits@ }
    }
}

/// One computed similarity score for a pair of distinct articles.
#[derive(Clone, Copy, PartialEq, Eq, Structural)]
pub struct PairScore {
    pub a: u64,
    pub b: u64,
    pub similarity: i64,
}

/// The store after a batch of files is gathered, first to last.
pub open spec fn gather_all_model(s: StoreView, files: Seq<FileView>, k: int) -> StoreView
    decreases files.len() - k,
{
    if k < 0 || k >= files.len() {
        s
    } else {
        gather_all_model(gather_file_model(s, files[k]), files, k + 1)
    }
}

/// The store after a batch of embeddings is stored, first to last.
pub open spec fn embed_all_model(s: StoreView, embs: Seq<ChunkEmbeddingView>, k: int) -> StoreView
    decreases embs.len() - k,
{
    if k < 0 || k >= embs.len() {
        s
    } else {
        embed_all_model(
            StoreView {
                chunks: set_embedding_model(s.chunks, embs[k].article, embs[k].chunk, embs[k].bits),
                ..s
            },
            embs,
            k + 1,
        )
    }
}

/// The store after a batch of scores is recorded, first to last.
pub open spec fn calc_all_model(s: StoreView, scores: Seq<PairScore>, k: int) -> StoreView
    decreases scores.len() - k,
{
    if k < 0 || k >= scores.len() {
        s
    } else {
        calc_all_model(
            StoreView {
                pairs: record_similarity_model(
                    s.pairs,
                    scores[k].a,
                    scores[k].b,
                    scores[k].similarity,
                ),
                ..s
            },
            scores,
            k + 1,
        )
    }
}

/// Whether `peer` names a non-draft article of the store.
pub open spec fn peer_active(arts: Seq<ArticleView>, peer: u64) -> bool {
    1 <= peer <= arts.len() && !arts[peer as int - 1].is_draft
}

/// The (peer, similarity) entries of every stored pair that touches
/// `id` and whose other article is active, in row order.
pub open spec fn candidates_spec(s: StoreView, id: u64) -> Seq<(u64, i64)>
    decreases s.pairs.len(),
{
    if s.pairs.len() == 0 {
        Seq::empty()
    } else {
        let rest = candidates_spec(
            StoreView { pairs: s.pairs.drop_last(), ..s },
            id,
        );
        let p = s.pairs.last();
        if p.a == id || p.b == id {
            let peer = if p.a == id {
                p.b
            } else {
                p.a
            };
            if peer_active(s.articles, peer) {
                rest.push((peer, p.similarity))
            } else {
                rest
            }
        } else {
            rest
        }
    }
}

impl Store {
    /// An empty store.
    pub fn new() -> (s: Store)
        ensures
            s@.articles.len() == 0,
            s@.chunks.len() == 0,
            s@.pairs.len() == 0,
            store_wf(s@),
    {
        Store { articles: Vec::new(), chunks: Vec::new(), pairs: Vec::new() }
    }

    /// How many article rows the store holds.
    pub fn article_count(&self) -> (n: usize)
        ensures
            n == self@.articles.len(),
    {
        self.articles.len()
    }

    fn find_article(&self, filename: &Vec<u8>) -> (r: Option<usize>)
        ensures
            match r {
                Some(i) => i < self@.articles.len() && find_article_by_filename(
                    self@.articles,
                    filename@,
                ) == i as int,
                None => find_article_by_filename(self@.articles, filename@) == -1,
            },
    {
        let mut i: usize = 0;
        while i < self.articles.len()
            invariant
                i <= self@.articles.len(),
                self@.articles.len() == self.articles@.len(),
                forall|j: int|
                    0 <= j < i ==> (#[trigger] self@.articles[j]).filename != filename@,
            decreases self.articles.len() - i,
        {
            let row = &self.articles[i];
            if bytes_eq(&row.filename, filename) {
                proof {
                    assert(self@.articles[i as int].filename == filename@);
                    lemma_find_article_by_filename(self@.articles, filename@, i as int);
                }
                return Some(i);
            }
            proof {
                assert(self@.articles[i as int].filename == row.filename@);
            }
            i = i + 1;
        }
        proof {
            lemma_find_article_by_filename(self@.articles, filename@, self@.articles.len() as int);
        }
        None
    }

    fn find_chunk_with_text(&self, article: u64, text: &Vec<u8>) -> (r: Option<usize>)
        ensures
            match r {
                Some(i) => i < self@.chunks.len() && find_chunk_by_text(
                    self@.chunks,
                    article,
                    text@,
                ) == i as int,
                None => find_chunk_by_text(self@.chunks, article, text@) == -1,
            },
    {
        let mut i: usize = 0;
        while i < self.chunks.len()
            invariant
                i <= self@.chunks.len(),
                self@.chunks.len() == self.chunks@.len(),
                forall|j: int|
                    0 <= j < i ==> !((#[trigger] self@.chunks[j]).article == article
                        && self@.chunks[j].text == text@),
            decreases self.chunks.len() - i,
        {
            let row = &self.chunks[i];
            if row.article == article && bytes_eq(&row.text, text) {
                proof {
                    assert(self@.chunks[i as int].article == article);
                    assert(self@.chunks[i as int].text == text@);
                    lemma_find_chunk_by_text(self@.chunks, article, text@, i as int);
                }
                return Some(i);
            }
            proof {
                assert(self@.chunks[i as int].article == row.article);
                assert(self@.chunks[i as int].text == row.text@);
            }
            i = i + 1;
        }
        proof {
            lemma_find_chunk_by_text(self@.chunks, article, text@, self@.chunks.len() as int);
        }
        None
    }

    fn find_chunk_with_key(&self, article: u64, index: u64) -> (r: Option<usize>)
        ensures
            match r {
                Some(i) => i < self@.chunks.len() && find_chunk_by_key(
                    self@.chunks,
                    article,
                    index,
                ) == i as int,
                None => find_chunk_by_key(self@.chunks, article, index) == -1,
            },
    {
        let mut i: usize = 0;
        while i < self.chunks.len()
            invariant
                i <= self@.chunks.len(),
                self@.chunks.len() == self.chunks@.len(),
                forall|j: int|
                    0 <= j < i ==> !((#[trigger] self@.chunks[j]).article == article
                        && self@.chunks[j].index == index),
            decreases self.chunks.len() - i,
        {
            let row = &self.chunks[i];
            if row.article == article && row.index == index {
                proof {
                    lemma_find_chunk_by_key(self@.chunks, article, index, i as int);
                }
                return Some(i);
            }
            proof {
                assert(self@.chunks[i as int].article == row.article);
                assert(self@.chunks[i as int].index == row.index);
            }
            i = i + 1;
        }
        proof {
            lemma_find_chunk_by_key(self@.chunks, article, index, self@.chunks.len() as int);
        }
        None
    }

    /// Gather one parsed file into the store: refresh or create its
    /// article row, then fold in its chunk texts.  A chunk text that is
    /// already present keeps its row — and so its embedding.
    pub fn gather_file(&mut self, file: &GatheredFile) -> (id: u64)
        requires
            store_wf(old(self)@),
            old(self)@.articles.len() < 0xffff_ffff_ffff_ffff,
        ensures
            store_wf(final(self)@),
            final(self)@ == gather_file_model(old(self)@, file@),
            id == gather_id(old(self)@.articles, file@),
    {
        let ghost s0 = self@;
        let id: u64;
        match self.find_article(&file.filename) {
            Some(i) => {
                let row_id = self.articles[i].id;
                id = row_id;
                let filename = copy_bytes(&self.articles[i].filename);
                let date = match &file.date {
                    Some(d) => Some(copy_bytes(d)),
                    None => None,
                };
                let new_row = ArticleRow {
                    id: row_id,
                    title: copy_bytes(&file.title),
                    url: copy_bytes(&file.url),
                    date,
                    filename,
                    is_draft: file.is_draft,
                };
                proof {
                    assert(new_row@ =~= ArticleView {
                        id: s0.articles[i as int].id,
                        title: file@.title,
                        url: file@.url,
                        date: file@.date,
                        filename: s0.articles[i as int].filename,
                        is_draft: file@.is_draft,
                    });
                }
                self.articles.set(i, new_row);
                proof {
                    assert(self@.articles =~= gather_upsert_articles(s0.articles, file@));
                    assert(self@.chunks =~= s0.chunks);
                    assert(self@.pairs =~= s0.pairs);
                    assert(articles_wf(self@.articles));
                }
            }
            None => {
                let next = (self.articles.len() as u64) + 1;
                id = next;
                let date = match &file.date {
                    Some(d) => Some(copy_bytes(d)),
                    None => None,
                };
                let new_row = ArticleRow {
                    id: next,
                    title: copy_bytes(&file.title),
                    url: copy_bytes(&file.url),
                    date,
                    filename: copy_bytes(&file.filename),
                    is_draft: file.is_draft,
                };
                proof {
                    assert(new_row@ =~= ArticleView {
                        id: (s0.articles.len() + 1) as u64,
                        title: file@.title,
                        url: file@.url,
                        date: file@.date,
                        filename: file@.filename,
                        is_draft: file@.is_draft,
                    });
                }
                self.articles.push(new_row);
                proof {
                    assert(self@.articles =~= gather_upsert_articles(s0.articles, file@));
                    assert(self@.chunks =~= s0.chunks);
                    assert(self@.pairs =~= s0.pairs);
                    lemma_find_article_props(s0.articles, file@.filename);
                    assert(articles_wf(self@.articles));
                }
            }
        }
        proof {
            assert(id == gather_id(s0.articles, file@));
        }
        let ghost arts1 = self@.articles;
        let ghost c0 = self@.chunks;
        let mut k: usize = 0;
        while k < file.chunks.len()
            invariant
                k <= file.chunks@.len(),
                file@.chunks.len() == file.chunks@.len(),
                self@.articles == arts1,
                self@.pairs == s0.pairs,
                chunks_wf(self@.chunks),
                gather_chunks_model(self@.chunks, id, file@.chunks, k as int)
                    == gather_chunks_model(c0, id, file@.chunks, 0),
            decreases file.chunks@.len() - k,
        {
            let ghost cs = self@.chunks;
            let text = &file.chunks[k];
            proof {
                assert(file@.chunks[k as int] =~= text@);
            }
            match self.find_chunk_with_text(id, text) {
                Some(_) => {
                    proof {
                        assert(gather_chunk_one(cs, id, text@, k as u64) == cs);
                    }
                }
                None => {
                    match self.find_chunk_with_key(id, k as u64) {
                        Some(i) => {
                            let embedding = match &self.chunks[i].embedding {
                                Some(v) => Some(copy_words(v)),
                                None => None,
                            };
                            let new_row = ChunkRow {
                                article: self.chunks[i].article,
                                index: self.chunks[i].index,
                                text: copy_bytes(text),
                                embedding,
                            };
                            proof {
                                assert(new_row@ =~= ChunkView {
                                    article: cs[i as int].article,
                                    index: cs[i as int].index,
                                    text: text@,
                                    embedding: cs[i as int].embedding,
                                });
                            }
                            self.chunks.set(i, new_row);
                            proof {
                                assert(self@.chunks =~= gather_chunk_one(cs, id, text@, k as u64));
                                assert(chunks_wf(self@.chunks));
                            }
                        }
                        None => {
                            let new_row = ChunkRow {
                                article: id,
                                index: k as u64,
                                text: copy_bytes(text),
                                embedding: None,
                            };
                            self.chunks.push(new_row);
                            proof {
                                assert(new_row@ =~= ChunkView {
                                    article: id,
                                    index: k as u64,
                                    text: text@,
                                    embedding: None,
                                });
                                assert(self@.chunks =~= gather_chunk_one(cs, id, text@, k as u64));
                                lemma_find_chunk_by_key_props(cs, id, k as u64);
                                assert(forall|j: int|
                                    0 <= j < cs.len() ==> !((#[trigger] cs[j]).article == id
                                        && cs[j].index == k as u64));
                                assert(chunks_wf(self@.chunks));
                            }
                        }
                    }
                }
            }
            proof {
                assert(gather_chunks_model(cs, id, file@.chunks, k as int)
                    == gather_chunks_model(
                    gather_chunk_one(cs, id, file@.chunks[k as int], k as u64),
                    id,
                    file@.chunks,
                    k as int + 1,
                ));
            }
            k = k + 1;
        }
        proof {
            assert(gather_chunks_model(self@.chunks, id, file@.chunks, file@.chunks.len() as int)
                == self@.chunks);
            assert(self@ =~= gather_file_model(s0, file@));
            assert(store_wf(self@));
        }
        id
    }

    /// Store one chunk's embedding.  Rows of other chunks are untouched;
    /// a missing key leaves the store unchanged.
    pub fn set_embedding(&mut self, article: u64, index: u64, bits: Vec<u64>)
        requires
            store_wf(old(self)@),
        ensures
            store_wf(final(self)@),
            final(self)@.chunks == set_embedding_model(old(self)@.chunks, article, index, bits@),
            final(self)@.articles == old(self)@.articles,
            final(self)@.pairs == old(self)@.pairs,
    {
        let ghost s0 = self@;
        match self.find_chunk_with_key(article, index) {
            Some(i) => {
                let new_row = ChunkRow {
                    article: self.chunks[i].article,
                    index: self.chunks[i].index,
                    text: copy_bytes(&self.chunks[i].text),
                    embedding: Some(bits),
                };
                proof {
                    assert(new_row@ =~= ChunkView {
                        article: s0.chunks[i as int].article,
                        index: s0.chunks[i as int].index,
                        text: s0.chunks[i as int].text,
                        embedding: Some(bits@),
                    });
                }
                self.chunks.set(i, new_row);
                proof {
                    assert(self@.chunks =~= set_embedding_model(s0.chunks, article, index, bits@));
                    assert(self@.articles =~= s0.articles);
                    assert(self@.pairs =~= s0.pairs);
                    assert(chunks_wf(self@.chunks));
                }
            }
            None => {
                proof {
                    assert(self@.chunks =~= set_embedding_model(s0.chunks, article, index, bits@));
                }
            }
        }
    }

    fn find_pair_row(&self, a: u64, b: u64) -> (r: Option<usize>)
        ensures
            match r {
                Some(i) => i < self@.pairs.len() && find_pair(self@.pairs, a, b) == i as int,
                None => find_pair(self@.pairs, a, b) == -1,
            },
    {
        let mut i: usize = 0;
        while i < self.pairs.len()
            invariant
                i <= self@.pairs.len(),
                self@.pairs.len() == self.pairs@.len(),
                forall|j: int|
                    0 <= j < i ==> !((#[trigger] self@.pairs[j]).a == a && self@.pairs[j].b == b),
            decreases self.pairs.len() - i,
        {
            let row = &self.pairs[i];
            if row.a == a && row.b == b {
                proof {
                    lemma_find_pair(self@.pairs, a, b, i as int);
                }
                return Some(i);
            }
            i = i + 1;
        }
        proof {
            lemma_find_pair(self@.pairs, a, b, self@.pairs.len() as int);
        }
        None
    }

    /// Record the similarity of one unordered pair of distinct articles,
    /// overwriting the pair's earlier score rather than duplicating it.
    pub fn record_similarity(&mut self, a: u64, b: u64, similarity: i64)
        requires
            store_wf(old(self)@),
            a != b,
        ensures
            store_wf(final(self)@),
            final(self)@.pairs == record_similarity_model(old(self)@.pairs, a, b, similarity),
            final(self)@.articles == old(self)@.articles,
            final(self)@.chunks == old(self)@.chunks,
    {
        let ghost s0 = self@;
        let lo = if a < b { a } else { b };
        let hi = if a < b { b } else { a };
        let row = PairRow { a: lo, b: hi, similarity };
        match self.find_pair_row(lo, hi) {
            Some(i) => {
                self.pairs.set(i, row);
                proof {
                    assert(self@.pairs =~= record_similarity_model(s0.pairs, a, b, similarity));
                    assert(self@.articles =~= s0.articles);
                    assert(self@.chunks =~= s0.chunks);
                    lemma_find_pair_props(s0.pairs, lo, hi);
                    assert(s0.pairs[i as int].a == lo && s0.pairs[i as int].b == hi);
                    assert forall|x: int, y: int|
                        0 <= x < y < self@.pairs.len() implies !((#[trigger] self@.pairs[x].a)
                        == (#[trigger] self@.pairs[y].a) && self@.pairs[x].b
                        == self@.pairs[y].b) by {
                        assert(s0.pairs[x].a == self@.pairs[x].a && s0.pairs[x].b
                            == self@.pairs[x].b);
                        assert(s0.pairs[y].a == self@.pairs[y].a && s0.pairs[y].b
                            == self@.pairs[y].b);
                    }
                    assert(pairs_wf(self@.pairs));
                }
            }
            None => {
                self.pairs.push(row);
                proof {
                    assert(self@.pairs =~= record_similarity_model(s0.pairs, a, b, similarity));
                    assert(self@.articles =~= s0.articles);
                    assert(self@.chunks =~= s0.chunks);
                    lemma_find_pair_props(s0.pairs, lo, hi);
                    assert(pairs_wf(self@.pairs));
                }
            }
        }
    }

    /// Ids of the non-draft articles, in stable store order.
    pub fn active_article_ids(&self) -> (r: Vec<u64>)
        ensures
            r@ == active_ids_spec(self@.articles),
    {
        let mut r: Vec<u64> = Vec::new();
        let mut i: usize = 0;
        proof {
            assert(self@.articles.take(0) =~= Seq::<ArticleView>::empty());
            assert(r@ =~= active_ids_spec(self@.articles.take(0)));
        }
        while i < self.articles.len()
            invariant
                i <= self.articles@.len(),
                self@.articles.len() == self.articles@.len(),
                r@ == active_ids_spec(self@.articles.take(i as int)),
            decreases self.articles@.len() - i,
        {
            let row = &self.articles[i];
            proof {
                let t = self@.articles.take(i as int + 1);
                assert(t.drop_last() =~= self@.articles.take(i as int));
                assert(t.last() == self@.articles[i as int]);
                assert(self@.articles[i as int].is_draft == row.is_draft);
                assert(self@.articles[i as int].id == row.id);
            }
            if !row.is_draft {
                r.push(row.id);
            }
            i = i + 1;
        }
        proof {
            assert(self@.articles.take(self@.articles.len() as int) =~= self@.articles);
        }
        r
    }

    /// The embeddings stored for this article's chunks, in row order.
    pub fn embedded_chunks(&self, article: u64) -> (r: Vec<Vec<u64>>)
        ensures
            r.deep_view() == embedded_of(self@.chunks, article),
    {
        let mut r: Vec<Vec<u64>> = Vec::new();
        let mut i: usize = 0;
        proof {
            assert(self@.chunks.take(0) =~= Seq::<ChunkView>::empty());
            assert(r.deep_view() =~= embedded_of(self@.chunks.take(0), article));
        }
        while i < self.chunks.len()
            invariant
                i <= self.chunks@.len(),
                self@.chunks.len() == self.chunks@.len(),
                r.deep_view() == embedded_of(self@.chunks.take(i as int), article),
            decreases self.chunks@.len() - i,
        {
            let ghost before = r.deep_view();
            let row = &self.chunks[i];
            proof {
                let t = self@.chunks.take(i as int + 1);
                assert(t.drop_last() =~= self@.chunks.take(i as int));
                assert(t.last() == self@.chunks[i as int]);
                assert(self@.chunks[i as int] == row@);
            }
            if row.article == article {
                match &row.embedding {
                    Some(e) => {
                        let copy = copy_words(e);
                        r.push(copy);
                        proof {
                            assert(copy.deep_view() =~= e@);
                            assert(r.deep_view() =~= before.push(e@));
                        }
                    }
                    None => {},
                }
            }
            i = i + 1;
        }
        proof {
            assert(self@.chunks.take(self@.chunks.len() as int) =~= self@.chunks);
        }
        r
    }

    /// This article's chunks that still need an embedding, in row order.
    pub fn chunks_needing_embedding(&self, article: u64) -> (r: Vec<ChunkTodo>)
        ensures
            todos_view(r@) == unembedded_of(self@.chunks, article),
    {
        let mut r: Vec<ChunkTodo> = Vec::new();
        let mut i: usize = 0;
        proof {
            assert(todos_view(r@) =~= unembedded_of(self@.chunks.take(0), article));
        }
        while i < self.chunks.len()
            invariant
                i <= self.chunks@.len(),
                self@.chunks.len() == self.chunks@.len(),
                todos_view(r@) == unembedded_of(self@.chunks.take(i as int), article),
            decreases self.chunks@.len() - i,
        {
            let ghost before = todos_view(r@);
            let row = &self.chunks[i];
            proof {
                let t = self@.chunks.take(i as int + 1);
                assert(t.drop_last() =~= self@.chunks.take(i as int));
                assert(t.last() == self@.chunks[i as int]);
                assert(self@.chunks[i as int] == row@);
            }
            let needs = row.article == article && match &row.embedding {
                Some(_) => false,
                None => true,
            };
            if needs {
                let todo = ChunkTodo { index: row.index, text: copy_bytes(&row.text) };
                proof {
                    assert(todo@ =~= ChunkTodoView {
                        index: self@.chunks[i as int].index,
                        text: self@.chunks[i as int].text,
                    });
                }
                r.push(todo);
                proof {
                    assert(todos_view(r@) =~= before.push(todo@));
                }
            }
            i = i + 1;
        }
        proof {
            assert(self@.chunks.take(self@.chunks.len() as int) =~= self@.chunks);
        }
        r
    }

    /// Every stored (peer, similarity) entry touching this article whose
    /// peer is active, in row order.
    pub fn candidates_for(&self, id: u64) -> (r: Vec<(u64, i64)>)
        requires
            store_wf(self@),
        ensures
            r@ == candidates_spec(self@, id),
    {
        let mut r: Vec<(u64, i64)> = Vec::new();
        let mut i: usize = 0;
        proof {
            assert(StoreView { pairs: self@.pairs.take(0), ..self@ }.pairs
                =~= Seq::<PairRow>::empty());
            assert(r@ =~= candidates_spec(StoreView { pairs: self@.pairs.take(0), ..self@ }, id));
        }
        while i < self.pairs.len()
            invariant
                i <= self.pairs@.len(),
                self@.pairs.len() == self.pairs@.len(),
                store_wf(self@),
                r@ == candidates_spec(StoreView { pairs: self@.pairs.take(i as int), ..self@ }, id),
            decreases self.pairs@.len() - i,
        {
            let row = self.pairs[i];
            proof {
                let t = self@.pairs.take(i as int + 1);
                assert(t.drop_last() =~= self@.pairs.take(i as int));
                assert(t.last() == self@.pairs[i as int]);
                assert(StoreView { pairs: t, ..self@ } =~= StoreView {
                    pairs: self@.pairs.take(i as int + 1),
                    ..self@
                });
            }
            if row.a == id || row.b == id {
                let peer = if row.a == id { row.b } else { row.a };
                let n = self.articles.len();
                let active = peer >= 1 && peer <= (n as u64)
                    && !self.articles[(peer - 1) as usize].is_draft;
                proof {
                    if 1 <= peer <= self@.articles.len() {
                        assert(self@.articles[peer as int - 1].is_draft
                            == self.articles@[peer as int - 1].is_draft);
                    }
                    assert(active == peer_active(self@.articles, peer));
                }
                if active {
                    r.push((peer, row.similarity));
                }
            }
            i = i + 1;
        }
        proof {
            assert(self@.pairs.take(self@.pairs.len() as int) =~= self@.pairs);
            assert(StoreView { pairs: self@.pairs.take(self@.pairs.len() as int), ..self@ }
                =~= self@);
        }
        r
    }

    /// The filename stored for this article id, if the id is known.
    pub fn article_filename(&self, id: u64) -> (r: Option<Vec<u8>>)
        requires
            store_wf(self@),
        ensures
            match r {
                Some(f) => 1 <= id <= self@.articles.len() && f@ == self@.articles[id as int
                    - 1].filename,
                None => !(1 <= id <= self@.articles.len()),
            },
    {
        if id >= 1 && id <= (self.articles.len() as u64) {
            let row = &self.articles[(id - 1) as usize];
            let f = copy_bytes(&row.filename);
            proof {
                assert(self@.articles[id as int - 1].filename == row.filename@);
            }
            Some(f)
        } else {
            None
        }
    }

    /// The article row at a position, for walking the store.
    pub fn article_at(&self, i: usize) -> (r: &ArticleRow)
        requires
            i < self@.articles.len(),
        ensures
            r@ == self@.articles[i as int],
    {
        &self.articles[i]
    }

    /// How many chunk rows the store holds.
    pub fn chunk_count(&self) -> (n: usize)
        ensures
            n == self@.chunks.len(),
    {
        self.chunks.len()
    }

    /// The chunk row at a position, for walking the store.
    pub fn chunk_at(&self, i: usize) -> (r: &ChunkRow)
        requires
            i < self@.chunks.len(),
        ensures
            r@ == self@.chunks[i as int],
    {
        &self.chunks[i]
    }

    /// How many similarity rows the store holds.
    pub fn pair_count(&self) -> (n: usize)
        ensures
            n == self@.pairs.len(),
    {
        self.pairs.len()
    }

    /// The similarity row at a position, for walking the store.
    pub fn pair_at(&self, i: usize) -> (r: PairRow)
        requires
            i < self@.pairs.len(),
        ensures
            r == self@.pairs[i as int],
    {
        self.pairs[i]
    }
}

// ---------------------------------------------------------------------
// Laws of the gather stage.
// ---------------------------------------------------------------------

/// One gather step keeps the chunk keys it finds, grows the rows at
/// most, and preserves key uniqueness.
proof fn lemma_gather_chunk_one_wf(chunks: Seq<ChunkView>, article: u64, text: Seq<u8>, index: u64)
    requires
        chunks_wf(chunks),
    ensures
        chunks_wf(gather_chunk_one(chunks, article, text, index)),
        gather_chunk_one(chunks, article, text, index).len() >= chunks.len(),
        forall|j: int|
            0 <= j < chunks.len() ==> (#[trigger] gather_chunk_one(
                chunks,
                article,
                text,
                index,
            )[j]).article == chunks[j].article && gather_chunk_one(
                chunks,
                article,
                text,
                index,
            )[j].index == chunks[j].index,
{
    let c1 = gather_chunk_one(chunks, article, text, index);
    if find_chunk_by_text(chunks, article, text) >= 0 {
    } else {
        let r = find_chunk_by_key(chunks, article, index);
        lemma_find_chunk_by_key_props(chunks, article, index);
        if r >= 0 {
            assert forall|x: int, y: int|
                0 <= x < y < c1.len() implies !((#[trigger] c1[x].article) == (#[trigger] c1[y].article)
                && c1[x].index == c1[y].index) by {
                assert(c1[x].article == chunks[x].article && c1[x].index == chunks[x].index);
                assert(c1[y].article == chunks[y].article && c1[y].index == chunks[y].index);
            }
        } else {
            assert forall|x: int, y: int|
                0 <= x < y < c1.len() implies !((#[trigger] c1[x].article) == (#[trigger] c1[y].article)
                && c1[x].index == c1[y].index) by {
                if y < chunks.len() {
                    assert(c1[x] == chunks[x] && c1[y] == chunks[y]);
                } else {
                    assert(c1[x] == chunks[x]);
                    assert(c1[y].article == article && c1[y].index == index);
                }
            }
        }
    }
}

/// Folding any run of chunk texts preserves key uniqueness.
proof fn lemma_gather_chunks_model_wf(
    chunks: Seq<ChunkView>,
    article: u64,
    texts: Seq<Seq<u8>>,
    k: int,
)
    requires
        chunks_wf(chunks),
    ensures
        chunks_wf(gather_chunks_model(chunks, article, texts, k)),
        gather_chunks_model(chunks, article, texts, k).len() >= chunks.len(),
    decreases texts.len() - k,
{
    if 0 <= k < texts.len() {
        lemma_gather_chunk_one_wf(chunks, article, texts[k], k as u64);
        lemma_gather_chunks_model_wf(
            gather_chunk_one(chunks, article, texts[k], k as u64),
            article,
            texts,
            k + 1,
        );
    }
}

/// Law: gathering a file never duplicates a row.  The store's keys —
/// filename for articles, (article, index) for chunks, the unordered id
/// pair for similarities — stay unique.
pub proof fn lemma_gather_preserves_wf(s: StoreView, f: FileView)
    requires
        store_wf(s),
        s.articles.len() < 0xffff_ffff_ffff_ffff,
    ensures
        store_wf(gather_file_model(s, f)),
{
    let arts = s.articles;
    let r = find_article_by_filename(arts, f.filename);
    lemma_find_article_props(arts, f.filename);
    let arts1 = gather_upsert_articles(arts, f);
    if r >= 0 {
        assert(0 <= r < arts.len());
        let row1 = ArticleView {
            id: arts[r].id,
            title: f.title,
            url: f.url,
            date: f.date,
            filename: arts[r].filename,
            is_draft: f.is_draft,
        };
        assert(arts1 == arts.update(r, row1));
        assert(arts1.len() == arts.len());
        assert forall|i: int| 0 <= i < arts1.len() implies (#[trigger] arts1[i]).id == i + 1 by {
            if i != r {
                assert(arts1[i] == arts[i]);
            } else {
                assert(arts1[r] == row1);
                assert(arts1[r].id == arts[r].id);
                assert(arts[r].id == r + 1);
            }
        }
        assert forall|i: int, j: int|
            #![trigger arts1[i].filename, arts1[j].filename]
            0 <= i < j < arts1.len() implies arts1[i].filename != arts1[j].filename by {
            if i == r {
                assert(arts1[i].filename == arts[r].filename);
            } else {
                assert(arts1[i] == arts[i]);
            }
            if j == r {
                assert(arts1[j].filename == arts[r].filename);
            } else {
                assert(arts1[j] == arts[j]);
            }
            assert(arts[i].filename != arts[j].filename);
        }
        assert(articles_wf(arts1));
    } else {
        assert forall|i: int| 0 <= i < arts1.len() implies (#[trigger] arts1[i]).id == i + 1 by {
            if i < arts.len() {
                assert(arts1[i] == arts[i]);
            } else {
                assert(arts1[i].id == arts.len() + 1);
            }
        }
        assert forall|i: int, j: int|
            #![trigger arts1[i].filename, arts1[j].filename]
            0 <= i < j < arts1.len() implies arts1[i].filename != arts1[j].filename by {
            if j < arts.len() {
                assert(arts1[i] == arts[i] && arts1[j] == arts[j]);
            } else {
                assert(arts1[i] == arts[i]);
                assert(arts1[j].filename == f.filename);
                assert(arts[i].filename != f.filename);
            }
        }
        assert(articles_wf(arts1));
    }
    lemma_gather_chunks_model_wf(s.chunks, gather_id(arts, f), f.chunks, 0);
}

/// Law: gathering the same file a second time leaves the article rows —
/// and the id the file is stored under — exactly as the first gather
/// left them.  Re-gathering an unchanged directory duplicates nothing.
pub proof fn lemma_gather_twice_same_articles(s: StoreView, f: FileView)
    requires
        store_wf(s),
        s.articles.len() < 0xffff_ffff_ffff_ffff,
    ensures
        gather_file_model(gather_file_model(s, f), f).articles == gather_file_model(s, f).articles,
        gather_id(gather_file_model(s, f).articles, f) == gather_id(s.articles, f),
{
    let arts = s.articles;
    let r = find_article_by_filename(arts, f.filename);
    lemma_find_article_props(arts, f.filename);
    let arts1 = gather_upsert_articles(arts, f);
    if r >= 0 {
        assert(arts1[r].filename == f.filename);
        lemma_find_article_by_filename(arts1, f.filename, r);
        assert(find_article_by_filename(arts1, f.filename) == r);
        let arts2 = gather_upsert_articles(arts1, f);
        assert(arts1.update(
            r,
            ArticleView {
                id: arts1[r].id,
                title: f.title,
                url: f.url,
                date: f.date,
                filename: arts1[r].filename,
                is_draft: f.is_draft,
            },
        ) =~= arts1);
        assert(arts2 == arts1);
    } else {
        let n = arts.len() as int;
        assert(arts1[n].filename == f.filename);
        assert(forall|j: int| 0 <= j < n ==> (#[trigger] arts1[j]) == arts[j]);
        lemma_find_article_by_filename(arts1, f.filename, n);
        assert(find_article_by_filename(arts1, f.filename) == n);
        let arts2 = gather_upsert_articles(arts1, f);
        assert(arts1.update(
            n,
            ArticleView {
                id: arts1[n].id,
                title: f.title,
                url: f.url,
                date: f.date,
                filename: arts1[n].filename,
                is_draft: f.is_draft,
            },
        ) =~= arts1);
        assert(arts2 == arts1);
        assert(gather_id(arts1, f) == arts1[n].id);
    }
}

/// Folding texts from step `k` on never touches a row whose text
/// already matches its own position's text.
proof fn lemma_gather_chunks_keep(
    chunks: Seq<ChunkView>,
    article: u64,
    texts: Seq<Seq<u8>>,
    k: int,
    j: int,
)
    requires
        chunks_wf(chunks),
        texts.len() <= 0xffff_ffff_ffff_ffff,
        0 <= k <= texts.len(),
        0 <= j < chunks.len(),
        chunks[j].article == article,
        chunks[j].index as int >= k ==> chunks[j].index < texts.len() && chunks[j].text
            == texts[chunks[j].index as int],
    ensures
        gather_chunks_model(chunks, article, texts, k).len() >= chunks.len(),
        gather_chunks_model(chunks, article, texts, k)[j] == chunks[j],
    decreases texts.len() - k,
{
    if k < texts.len() {
        let c1 = gather_chunk_one(chunks, article, texts[k], k as u64);
        lemma_gather_chunk_one_wf(chunks, article, texts[k], k as u64);
        if find_chunk_by_text(chunks, article, texts[k]) >= 0 {
            assert(c1 == chunks);
        } else {
            lemma_find_chunk_by_text_props(chunks, article, texts[k]);
            assert(chunks[j].index as int != k);
            assert((k as u64) as int == k);
            let r = find_chunk_by_key(chunks, article, k as u64);
            lemma_find_chunk_by_key_props(chunks, article, k as u64);
            if r >= 0 {
                assert(chunks[r as int].index == k as u64);
                assert(chunks[j].index != k as u64);
                assert(r != j);
                assert(c1[j] == chunks[j]);
            } else {
                assert(c1[j] == chunks[j]);
            }
        }
        lemma_gather_chunks_keep(c1, article, texts, k + 1, j);
    }
}

/// Law: a chunk whose text is unchanged keeps its row — and with it its
/// stored embedding.  Re-gathering never forces a recomputation for
/// text that did not change.
pub proof fn lemma_gather_keeps_embedding(s: StoreView, f: FileView, j: int)
    requires
        store_wf(s),
        f.chunks.len() <= 0xffff_ffff_ffff_ffff,
        0 <= j < s.chunks.len(),
        s.chunks[j].article == gather_id(s.articles, f),
        s.chunks[j].index < f.chunks.len(),
        s.chunks[j].text == f.chunks[s.chunks[j].index as int],
    ensures
        gather_file_model(s, f).chunks.len() >= s.chunks.len(),
        gather_file_model(s, f).chunks[j] == s.chunks[j],
{
    lemma_gather_chunks_keep(s.chunks, gather_id(s.articles, f), f.chunks, 0, j);
}

/// Folding texts that are all present already changes nothing.
proof fn lemma_gather_chunks_present(
    chunks: Seq<ChunkView>,
    article: u64,
    texts: Seq<Seq<u8>>,
    k: int,
)
    requires
        0 <= k <= texts.len(),
        forall|m: int|
            k <= m < texts.len() ==> find_chunk_by_text(chunks, article, #[trigger] texts[m]) >= 0,
    ensures
        gather_chunks_model(chunks, article, texts, k) == chunks,
    decreases texts.len() - k,
{
    if k < texts.len() {
        assert(gather_chunk_one(chunks, article, texts[k], k as u64) == chunks);
        lemma_gather_chunks_present(chunks, article, texts, k + 1);
    }
}

/// Law: gathering a file whose chunk texts are all present already —
/// as they are right after a first gather of an unchanged directory —
/// leaves every chunk row, embeddings included, exactly as it was.
pub proof fn lemma_gather_present_chunks_is_noop(s: StoreView, f: FileView)
    requires
        store_wf(s),
        forall|m: int|
            0 <= m < f.chunks.len() ==> find_chunk_by_text(
                s.chunks,
                gather_id(s.articles, f),
                #[trigger] f.chunks[m],
            ) >= 0,
    ensures
        gather_file_model(s, f).chunks == s.chunks,
{
    lemma_gather_chunks_present(s.chunks, gather_id(s.articles, f), f.chunks, 0);
}

/// Folding one article's texts never touches another article's rows.
proof fn lemma_gather_chunks_frame(
    chunks: Seq<ChunkView>,
    article: u64,
    texts: Seq<Seq<u8>>,
    k: int,
    j: int,
)
    requires
        chunks_wf(chunks),
        0 <= k <= texts.len(),
        0 <= j < chunks.len(),
        chunks[j].article != article,
    ensures
        gather_chunks_model(chunks, article, texts, k).len() >= chunks.len(),
        gather_chunks_model(chunks, article, texts, k)[j] == chunks[j],
    decreases texts.len() - k,
{
    if k < texts.len() {
        let c1 = gather_chunk_one(chunks, article, texts[k], k as u64);
        lemma_gather_chunk_one_wf(chunks, article, texts[k], k as u64);
        if find_chunk_by_text(chunks, article, texts[k]) >= 0 {
        } else {
            let r = find_chunk_by_key(chunks, article, k as u64);
            lemma_find_chunk_by_key_props(chunks, article, k as u64);
            if r >= 0 {
                assert(chunks[r as int].article == article);
                assert(r != j);
            }
        }
        assert(c1[j] == chunks[j]);
        lemma_gather_chunks_frame(c1, article, texts, k + 1, j);
    }
}

/// Law: gathering one file leaves every other article's chunk rows as
/// they were.
pub proof fn lemma_gather_frames_other_articles(s: StoreView, f: FileView, j: int)
    requires
        store_wf(s),
        0 <= j < s.chunks.len(),
        s.chunks[j].article != gather_id(s.articles, f),
    ensures
        gather_file_model(s, f).chunks.len() >= s.chunks.len(),
        gather_file_model(s, f).chunks[j] == s.chunks[j],
{
    lemma_gather_chunks_frame(s.chunks, gather_id(s.articles, f), f.chunks, 0, j);
}

} // verus!
