//! The four-stage pipeline: gather, embed, calc, write.
//!
//! Each stage is a transition on the corpus store.  The surrounding
//! application performs the outside work — reading files, calling the
//! embedding provider, computing cosine scores, rewriting documents —
//! and hands the results in as plain values; [`run`] applies each
//! stage's verified decision to the store and returns what the
//! application must do next.

use vstd::prelude::*;

use crate::error::PipelineError;
use crate::related::select_related;
use crate::related::select_spec;
use crate::store::active_ids_spec;
use crate::store::articles_wf;
use crate::store::calc_all_model;
use crate::store::candidates_spec;
use crate::store::embed_all_model;
use crate::store::gather_all_model;
use crate::store::store_wf;
use crate::store::ChunkEmbedding;
use crate::store::ChunkEmbeddingView;
use crate::store::FileView;
use crate::store::GatheredFile;
use crate::store::PairScore;
use crate::store::Store;
use crate::store::StoreView;
use crate::text::base_name_spec;
use crate::text::file_base_name;

verus! {

/// The pipeline's invocable operations, in running order.
pub enum Commands {
    /// Parse source articles, chunk them, and record them in the store.
    Gather { directory: String },
    /// Compute an embedding for each chunk that has none yet.
    Embed,
    /// Score every pair of active articles and record the results.
    Calc,
    /// Write each article's related list into its metadata block.
    Write { directory: String, no_backup: bool, dry_run: bool },
    /// Parse and display the gathered articles, changing nothing.
    FixUp,
}

/// What the application hands a stage: the outside work's results.
pub enum StageInput {
    /// Parsed files for the gather stage.
    Files(Vec<GatheredFile>),
    /// Freshly computed chunk embeddings for the embed stage.
    Embeddings(Vec<ChunkEmbedding>),
    /// Freshly computed pair scores for the calc stage.
    Scores(Vec<PairScore>),
    /// Stages that take nothing from outside.
    Nothing,
}

/// One article whose metadata the write stage wants to fill.
#[derive(Debug)]
pub struct RelatedPlan {
    pub article: u64,
    pub filename: Vec<u8>,
    pub related: Vec<Vec<u8>>,
}

#[verifier::ext_equal]
pub struct RelatedPlanView {
    pub article: u64,
    pub filename: Seq<u8>,
    pub related: Seq<Seq<u8>>,
}

impl View for RelatedPlan {
    type V = RelatedPlanView;

    open spec fn view(&self) -> RelatedPlanView {
        RelatedPlanView {
            article: self.article,
            filename: self.filename@,
            related: self.related.deep_view(),
        }
    }
}

pub open spec fn plans_view(v: Seq<RelatedPlan>) -> Seq<RelatedPlanView> {
    Seq::new(v.len(), |i: int| v[i]@)
}

/// What a stage returns for the application to act on.
#[derive(Debug)]
pub enum StageOutput {
    /// How many files the gather stage folded in.
    Gathered(usize),
    /// How many embeddings the embed stage stored.
    Embedded(usize),
    /// How many pair scores the calc stage recorded.
    Calculated(usize),
    /// The articles whose metadata should gain a related list.
    WritePlan(Vec<RelatedPlan>),
    /// Nothing to act on.
    Done,
}

/// Whether the input is the right shape for the command's stage.
pub open spec fn stage_matches(cmd: Commands, input: StageInput) -> bool {
    match cmd {
        Commands::Gather { .. } => input is Files,
        Commands::Embed => input is Embeddings,
        Commands::Calc => input is Scores,
        Commands::Write { .. } => input is Nothing,
        Commands::FixUp => input is Nothing,
    }
}

pub open spec fn files_view(v: Seq<GatheredFile>) -> Seq<FileView> {
    Seq::new(v.len(), |i: int| v[i]@)
}

pub open spec fn embeddings_view(v: Seq<ChunkEmbedding>) -> Seq<ChunkEmbeddingView> {
    Seq::new(v.len(), |i: int| v[i]@)
}

// ---------------------------------------------------------------------
// Pair enumeration for the calc stage.
// ---------------------------------------------------------------------

/// `a` paired with each element of `rest`, in order.
pub open spec fn pair_with(a: u64, rest: Seq<u64>) -> Seq<(u64, u64)>
    decreases rest.len(),
{
    if rest.len() == 0 {
        Seq::empty()
    } else {
        pair_with(a, rest.drop_last()).push((a, rest.last()))
    }
}

/// Every unordered pair of the ids, each exactly once: the first id
/// with all later ones, then the pairs of the rest.
pub open spec fn pairs_from(ids: Seq<u64>) -> Seq<(u64, u64)>
    decreases ids.len(),
{
    if ids.len() == 0 {
        Seq::empty()
    } else {
        pair_with(ids.first(), ids.drop_first()) + pairs_from(ids.drop_first())
    }
}

proof fn lemma_pair_with_elems(a: u64, rest: Seq<u64>)
    ensures
        pair_with(a, rest).len() == rest.len(),
        forall|k: int| 0 <= k < rest.len() ==> (#[trigger] pair_with(a, rest)[k]) == (a, rest[k]),
    decreases rest.len(),
{
    if rest.len() > 0 {
        lemma_pair_with_elems(a, rest.drop_last());
    }
}

/// Law: over ids listed in ascending order — as the store lists active
/// articles — every enumerated pair has its smaller id first, so each
/// unordered pair of distinct articles appears exactly once.
pub proof fn lemma_pairs_from_ordered(ids: Seq<u64>)
    requires
        forall|i: int, j: int| 0 <= i < j < ids.len() ==> ids[i] < ids[j],
    ensures
        forall|k: int|
            0 <= k < pairs_from(ids).len() ==> (#[trigger] pairs_from(ids)[k]).0 < pairs_from(
                ids,
            )[k].1,
    decreases ids.len(),
{
    if ids.len() > 0 {
        let rest = ids.drop_first();
        assert(forall|i: int, j: int| 0 <= i < j < rest.len() ==> rest[i] < rest[j]);
        lemma_pair_with_elems(ids.first(), rest);
        lemma_pairs_from_ordered(rest);
        let all = pairs_from(ids);
        let n = rest.len() as int;
        assert forall|k: int| 0 <= k < all.len() implies (#[trigger] all[k]).0 < all[k].1 by {
            if k < n {
                assert(all[k] == pair_with(ids.first(), rest)[k]);
                assert(all[k] == (ids.first(), rest[k]));
                assert(ids[0] < ids[k + 1]);
            } else {
                assert(all[k] == pairs_from(rest)[k - n]);
            }
        }
    }
}

/// Law: the active article ids come out ascending, so the calc stage's
/// iteration order is deterministic.
pub proof fn lemma_active_ids_ascending(arts: Seq<crate::store::ArticleView>)
    requires
        articles_wf(arts),
    ensures
        forall|i: int|
            0 <= i < active_ids_spec(arts).len() ==> 1 <= (#[trigger] active_ids_spec(arts)[i])
                <= arts.len(),
        forall|i: int, j: int|
            0 <= i < j < active_ids_spec(arts).len() ==> active_ids_spec(arts)[i]
                < active_ids_spec(arts)[j],
    decreases arts.len(),
{
    if arts.len() > 0 {
        let front = arts.drop_last();
        assert(forall|i: int| 0 <= i < front.len() ==> (#[trigger] front[i]) == arts[i]);
        assert(articles_wf(front));
        lemma_active_ids_ascending(front);
        let rest = active_ids_spec(front);
        assert(arts.last().id == arts.len());
        if !arts.last().is_draft {
            let whole = active_ids_spec(arts);
            assert(whole == rest.push(arts.last().id));
            assert forall|i: int, j: int|
                0 <= i < j < whole.len() implies whole[i] < whole[j] by {
                if j < rest.len() {
                    assert(whole[i] == rest[i] && whole[j] == rest[j]);
                } else {
                    assert(whole[i] == rest[i]);
                    assert(rest[i] <= front.len());
                    assert(whole[j] == arts.last().id);
                }
            }
        }
    }
}

/// All unordered pairs of the given ids, each once, in order.
pub fn all_pairs(ids: &Vec<u64>) -> (r: Vec<(u64, u64)>)
    ensures
        r@ == pairs_from(ids@),
{
    let mut r: Vec<(u64, u64)> = Vec::new();
    let mut i: usize = 0;
    proof {
        assert(ids@.skip(0) =~= ids@);
        assert(r@ + pairs_from(ids@.skip(0)) =~= pairs_from(ids@));
    }
    while i < ids.len()
        invariant
            i <= ids@.len(),
            r@ + pairs_from(ids@.skip(i as int)) == pairs_from(ids@),
        decreases ids@.len() - i,
    {
        let a = ids[i];
        let ghost r0 = r@;
        let ghost rem = ids@.skip(i as int);
        let mut j: usize = i + 1;
        proof {
            assert(ids@.subrange(i as int + 1, i as int + 1) =~= Seq::<u64>::empty());
            assert(r@ =~= r0 + pair_with(a, ids@.subrange(i as int + 1, i as int + 1)));
        }
        while j < ids.len()
            invariant
                i < j <= ids@.len(),
                a == ids@[i as int],
                r0 + pairs_from(ids@.skip(i as int)) == pairs_from(ids@),
                r@ == r0 + pair_with(a, ids@.subrange(i as int + 1, j as int)),
            decreases ids@.len() - j,
        {
            r.push((a, ids[j]));
            proof {
                let part = ids@.subrange(i as int + 1, j as int + 1);
                assert(part.drop_last() =~= ids@.subrange(i as int + 1, j as int));
                assert(part.last() == ids@[j as int]);
                assert(r@ =~= r0 + pair_with(a, part));
            }
            j = j + 1;
        }
        proof {
            assert(ids@.subrange(i as int + 1, ids@.len() as int) =~= rem.drop_first());
            assert(rem.first() == a);
            assert(pairs_from(rem) == pair_with(a, rem.drop_first()) + pairs_from(
                rem.drop_first(),
            ));
            assert(rem.drop_first() =~= ids@.skip(i as int + 1));
            assert(r@ + pairs_from(ids@.skip(i as int + 1)) =~= pairs_from(ids@));
        }
        i = i + 1;
    }
    proof {
        assert(pairs_from(ids@.skip(ids@.len() as int)) == Seq::<(u64, u64)>::empty());
        assert(r@ =~= pairs_from(ids@));
    }
    r
}

// ---------------------------------------------------------------------
// The calc stage's comparability check.
// ---------------------------------------------------------------------

/// Whether every cross pair of embeddings has matching dimensions.
pub open spec fn dims_match(a: Seq<Vec<u64>>, b: Seq<Vec<u64>>) -> bool {
    forall|i: int, j: int|
        0 <= i < a.len() && 0 <= j < b.len() ==> (#[trigger] a[i])@.len() == (#[trigger] b[j])@.len()
}

/// Validate that two articles' embedded chunks can be compared: both
/// must have at least one embedded chunk, and every cross pair of
/// vectors must share one dimension.  An article with no embedded
/// chunks, or a dimension mismatch, is reported with the offending ids.
pub fn check_comparable(a_id: u64, a: &Vec<Vec<u64>>, b_id: u64, b: &Vec<Vec<u64>>) -> (r: Result<
    (),
    PipelineError,
>)
    ensures
        match r {
            Ok(_) => a@.len() > 0 && b@.len() > 0 && dims_match(a@, b@),
            Err(e) => (a@.len() == 0 && e == (PipelineError::NoEmbeddedChunks { article: a_id }))
                || (a@.len() > 0 && b@.len() == 0 && e == (PipelineError::NoEmbeddedChunks {
                article: b_id,
            })) || (a@.len() > 0 && b@.len() > 0 && !dims_match(a@, b@) && e
                == (PipelineError::DimensionMismatch { a: a_id, b: b_id })),
        },
{
    if a.len() == 0 {
        return Err(PipelineError::NoEmbeddedChunks { article: a_id });
    }
    if b.len() == 0 {
        return Err(PipelineError::NoEmbeddedChunks { article: b_id });
    }
    let d = b[0].len();
    let a0 = a[0].len();
    let mut i: usize = 0;
    while i < a.len()
        invariant
            i <= a@.len(),
            0 < a@.len(),
            0 < b@.len(),
            d == b@[0]@.len(),
            forall|k: int| 0 <= k < i ==> (#[trigger] a@[k])@.len() == d,
        decreases a@.len() - i,
    {
        if a[i].len() != d {
            proof {
                assert(a@[i as int]@.len() != b@[0]@.len());
                assert(!dims_match(a@, b@));
            }
            return Err(PipelineError::DimensionMismatch { a: a_id, b: b_id });
        }
        i = i + 1;
    }
    let mut j: usize = 0;
    while j < b.len()
        invariant
            j <= b@.len(),
            0 < a@.len(),
            0 < b@.len(),
            a0 == a@[0]@.len(),
            forall|k: int| 0 <= k < j ==> (#[trigger] b@[k])@.len() == a0,
        decreases b@.len() - j,
    {
        if b[j].len() != a0 {
            proof {
                assert(a@[0]@.len() != b@[j as int]@.len());
                assert(!dims_match(a@, b@));
            }
            return Err(PipelineError::DimensionMismatch { a: a_id, b: b_id });
        }
        j = j + 1;
    }
    proof {
        assert(a@[0]@.len() == d);
        assert(b@[0]@.len() == a0);
        assert forall|x: int, y: int|
            0 <= x < a@.len() && 0 <= y < b@.len() implies (#[trigger] a@[x])@.len()
            == (#[trigger] b@[y])@.len() by {
            assert(a@[x]@.len() == d);
            assert(b@[y]@.len() == a0);
        }
    }
    Ok(())
}

// ---------------------------------------------------------------------
// The write stage's relation selection.
// ---------------------------------------------------------------------

/// The stored base name a peer id maps to; an unknown id maps to the
/// empty name.
pub open spec fn name_of(s: StoreView, peer: u64) -> Seq<u8> {
    if 1 <= peer <= s.articles.len() {
        base_name_spec(s.articles[peer as int - 1].filename)
    } else {
        Seq::empty()
    }
}

pub open spec fn names_of(s: StoreView, peers: Seq<u64>) -> Seq<Seq<u8>>
    decreases peers.len(),
{
    if peers.len() == 0 {
        Seq::empty()
    } else {
        names_of(s, peers.drop_last()).push(name_of(s, peers.last()))
    }
}

/// The related list computed for one article: its best-scoring active
/// peers, mapped to their filenames' base names.
pub open spec fn related_model(s: StoreView, id: u64) -> Seq<Seq<u8>> {
    names_of(s, select_spec(candidates_spec(s, id)))
}

/// Compute one article's related list from the stored similarities.
pub fn related_for(store: &Store, id: u64) -> (r: Vec<Vec<u8>>)
    requires
        store_wf(store@),
    ensures
        r.deep_view() == related_model(store@, id),
{
    let cands = store.candidates_for(id);
    let peers = select_related(&cands);
    let mut r: Vec<Vec<u8>> = Vec::new();
    let mut k: usize = 0;
    proof {
        assert(peers@.take(0) =~= Seq::<u64>::empty());
        assert(r.deep_view() =~= names_of(store@, peers@.take(0)));
    }
    while k < peers.len()
        invariant
            k <= peers@.len(),
            store_wf(store@),
            r.deep_view() == names_of(store@, peers@.take(k as int)),
        decreases peers@.len() - k,
    {
        let ghost before = r.deep_view();
        let p = peers[k];
        let name = match store.article_filename(p) {
            Some(f) => file_base_name(&f),
            None => Vec::new(),
        };
        proof {
            assert(name@ =~= name_of(store@, p));
        }
        r.push(name);
        proof {
            let t = peers@.take(k as int + 1);
            assert(t.drop_last() =~= peers@.take(k as int));
            assert(t.last() == peers@[k as int]);
            assert(name.deep_view() =~= name@);
            assert(r.deep_view() =~= before.push(name@));
        }
        k = k + 1;
    }
    proof {
        assert(peers@.take(peers@.len() as int) =~= peers@);
        assert(r.deep_view() == names_of(store@, select_spec(cands@)));
    }
    r
}

/// The filename stored for an article id, or the empty name.
pub open spec fn article_filename_of(s: StoreView, id: u64) -> Seq<u8> {
    if 1 <= id <= s.articles.len() {
        s.articles[id as int - 1].filename
    } else {
        Seq::empty()
    }
}

/// The write stage's plan: for each active article, in order, the
/// related list it should receive — only articles with a non-empty list
/// appear.
pub open spec fn write_plan_fold(s: StoreView, ids: Seq<u64>) -> Seq<RelatedPlanView>
    decreases ids.len(),
{
    if ids.len() == 0 {
        Seq::empty()
    } else {
        let rest = write_plan_fold(s, ids.drop_last());
        let id = ids.last();
        let rel = related_model(s, id);
        if rel.len() > 0 {
            rest.push(
                RelatedPlanView { article: id, filename: article_filename_of(s, id), related: rel },
            )
        } else {
            rest
        }
    }
}

pub open spec fn write_plan_model(s: StoreView) -> Seq<RelatedPlanView> {
    write_plan_fold(s, active_ids_spec(s.articles))
}

/// The write stage's decision pass: which articles get a related list,
/// and what it holds.  Changes nothing; the application performs the
/// writes, gated per file by the metadata merge.
pub fn do_write(store: &Store) -> (plan: Vec<RelatedPlan>)
    requires
        store_wf(store@),
    ensures
        plans_view(plan@) == write_plan_model(store@),
{
    let ids = store.active_article_ids();
    let mut plan: Vec<RelatedPlan> = Vec::new();
    let mut k: usize = 0;
    proof {
        assert(ids@.take(0) =~= Seq::<u64>::empty());
        assert(plans_view(plan@) =~= write_plan_fold(store@, ids@.take(0)));
    }
    while k < ids.len()
        invariant
            k <= ids@.len(),
            store_wf(store@),
            ids@ == active_ids_spec(store@.articles),
            plans_view(plan@) == write_plan_fold(store@, ids@.take(k as int)),
        decreases ids@.len() - k,
    {
        let ghost before = plans_view(plan@);
        let id = ids[k];
        let rel = related_for(store, id);
        proof {
            let t = ids@.take(k as int + 1);
            assert(t.drop_last() =~= ids@.take(k as int));
            assert(t.last() == ids@[k as int]);
            assert(rel.deep_view().len() == rel@.len());
        }
        if rel.len() > 0 {
            let filename = match store.article_filename(id) {
                Some(f) => f,
                None => Vec::new(),
            };
            proof {
                assert(filename@ =~= article_filename_of(store@, id));
            }
            let entry = RelatedPlan { article: id, filename, related: rel };
            proof {
                assert(entry@ =~= RelatedPlanView {
                    article: id,
                    filename: article_filename_of(store@, id),
                    related: related_model(store@, id),
                });
            }
            plan.push(entry);
            proof {
                assert(plans_view(plan@) =~= before.push(entry@));
            }
        }
        k = k + 1;
    }
    proof {
        assert(ids@.take(ids@.len() as int) =~= ids@);
    }
    plan
}

// ---------------------------------------------------------------------
// The stage transitions on the store.
// ---------------------------------------------------------------------

/// Fold a batch of parsed files into the store.
pub fn do_gather(store: &mut Store, files: &Vec<GatheredFile>) -> (n: usize)
    requires
        store_wf(old(store)@),
        old(store)@.articles.len() + files@.len() < 0xffff_ffff_ffff_ffff,
    ensures
        store_wf(final(store)@),
        final(store)@ == gather_all_model(old(store)@, files_view(files@), 0),
        n == files@.len(),
{
    let ghost s0 = store@;
    let ghost fv = files_view(files@);
    let mut k: usize = 0;
    while k < files.len()
        invariant
            k <= files@.len(),
            fv == files_view(files@),
            fv.len() == files@.len(),
            store_wf(store@),
            store@.articles.len() <= s0.articles.len() + k,
            s0.articles.len() + files@.len() < 0xffff_ffff_ffff_ffff,
            gather_all_model(store@, fv, k as int) == gather_all_model(s0, fv, 0),
        decreases files@.len() - k,
    {
        let ghost before = store@;
        let file = &files[k];
        proof {
            assert(fv[k as int] == file@);
        }
        store.gather_file(file);
        proof {
            assert(store@ == crate::store::gather_file_model(before, fv[k as int]));
            let f = fv[k as int];
            crate::store::lemma_find_article_props(before.articles, f.filename);
            if crate::store::find_article_by_filename(before.articles, f.filename) >= 0 {
                assert(store@.articles.len() == before.articles.len());
            } else {
                assert(store@.articles.len() == before.articles.len() + 1);
            }
            assert(gather_all_model(before, fv, k as int) == gather_all_model(
                store@,
                fv,
                k as int + 1,
            ));
        }
        k = k + 1;
    }
    proof {
        assert(gather_all_model(store@, fv, files@.len() as int) == store@);
    }
    files.len()
}

/// Store a batch of computed embeddings.
pub fn do_embed(store: &mut Store, embeddings: &Vec<ChunkEmbedding>) -> (n: usize)
    requires
        store_wf(old(store)@),
    ensures
        store_wf(final(store)@),
        final(store)@ == embed_all_model(old(store)@, embeddings_view(embeddings@), 0),
        n == embeddings@.len(),
{
    let ghost s0 = store@;
    let ghost ev = embeddings_view(embeddings@);
    let mut k: usize = 0;
    while k < embeddings.len()
        invariant
            k <= embeddings@.len(),
            ev == embeddings_view(embeddings@),
            ev.len() == embeddings@.len(),
            store_wf(store@),
            embed_all_model(store@, ev, k as int) == embed_all_model(s0, ev, 0),
        decreases embeddings@.len() - k,
    {
        let ghost before = store@;
        let e = &embeddings[k];
        proof {
            assert(ev[k as int] == e@);
        }
        let bits = crate::text::copy_words(&e.bits);
        store.set_embedding(e.article, e.chunk, bits);
        proof {
            assert(store@ =~= StoreView {
                chunks: crate::store::set_embedding_model(
                    before.chunks,
                    ev[k as int].article,
                    ev[k as int].chunk,
                    ev[k as int].bits,
                ),
                ..before
            });
            assert(embed_all_model(before, ev, k as int) == embed_all_model(
                store@,
                ev,
                k as int + 1,
            ));
        }
        k = k + 1;
    }
    proof {
        assert(embed_all_model(store@, ev, embeddings@.len() as int) == store@);
    }
    embeddings.len()
}

/// Record a batch of pair scores.
pub fn do_calc(store: &mut Store, scores: &Vec<PairScore>) -> (n: usize)
    requires
        store_wf(old(store)@),
        forall|i: int| 0 <= i < scores@.len() ==> (#[trigger] scores@[i]).a != scores@[i].b,
    ensures
        store_wf(final(store)@),
        final(store)@ == calc_all_model(old(store)@, scores@, 0),
        n == scores@.len(),
{
    let ghost s0 = store@;
    let mut k: usize = 0;
    while k < scores.len()
        invariant
            k <= scores@.len(),
            store_wf(store@),
            forall|i: int| 0 <= i < scores@.len() ==> (#[trigger] scores@[i]).a != scores@[i].b,
            calc_all_model(store@, scores@, k as int) == calc_all_model(s0, scores@, 0),
        decreases scores@.len() - k,
    {
        let ghost before = store@;
        let sc = scores[k];
        store.record_similarity(sc.a, sc.b, sc.similarity);
        proof {
            assert(store@ =~= StoreView {
                pairs: crate::store::record_similarity_model(
                    before.pairs,
                    scores@[k as int].a,
                    scores@[k as int].b,
                    scores@[k as int].similarity,
                ),
                ..before
            });
            assert(calc_all_model(before, scores@, k as int) == calc_all_model(
                store@,
                scores@,
                k as int + 1,
            ));
        }
        k = k + 1;
    }
    proof {
        assert(calc_all_model(store@, scores@, scores@.len() as int) == store@);
    }
    scores.len()
}

/// Run one pipeline stage against the store.  The command decides the
/// stage; the input carries the outside work's results for it.  A
/// mismatched input is rejected and the store is untouched.
pub fn run(store: &mut Store, cmd: &Commands, input: StageInput) -> (r: Result<
    StageOutput,
    PipelineError,
>)
    requires
        store_wf(old(store)@),
        *cmd is Gather ==> (input matches StageInput::Files(fs) ==> old(store)@.articles.len()
            + fs@.len() < 0xffff_ffff_ffff_ffff),
        *cmd is Calc ==> (input matches StageInput::Scores(ss) ==> forall|i: int|
            0 <= i < ss@.len() ==> (#[trigger] ss@[i]).a != ss@[i].b),
    ensures
        store_wf(final(store)@),
        !stage_matches(*cmd, input) ==> final(store)@ == old(store)@ && r == Err::<
            StageOutput,
            PipelineError,
        >(PipelineError::InputMismatch),
        *cmd is Gather ==> (input matches StageInput::Files(fs) ==> final(store)@
            == gather_all_model(old(store)@, files_view(fs@), 0) && r == Ok::<
            StageOutput,
            PipelineError,
        >(StageOutput::Gathered(fs.len()))),
        *cmd is Embed ==> (input matches StageInput::Embeddings(es) ==> final(store)@
            == embed_all_model(old(store)@, embeddings_view(es@), 0) && r == Ok::<
            StageOutput,
            PipelineError,
        >(StageOutput::Embedded(es.len()))),
        *cmd is Calc ==> (input matches StageInput::Scores(ss) ==> final(store)@
            == calc_all_model(old(store)@, ss@, 0) && r == Ok::<StageOutput, PipelineError>(
            StageOutput::Calculated(ss.len()),
        )),
        *cmd is Write ==> (input is Nothing ==> final(store)@ == old(store)@ && (r matches Ok(o)
            && o matches StageOutput::WritePlan(plan) && plans_view(plan@) == write_plan_model(
            old(store)@,
        ))),
        *cmd is FixUp ==> (input is Nothing ==> final(store)@ == old(store)@ && r == Ok::<
            StageOutput,
            PipelineError,
        >(StageOutput::Done)),
{
    match cmd {
        Commands::Gather { .. } => {
            match input {
                StageInput::Files(fs) => {
                    let n = do_gather(store, &fs);
                    Ok(StageOutput::Gathered(n))
                },
                _ => Err(PipelineError::InputMismatch),
            }
        },
        Commands::Embed => {
            match input {
                StageInput::Embeddings(es) => {
                    let n = do_embed(store, &es);
                    Ok(StageOutput::Embedded(n))
                },
                _ => Err(PipelineError::InputMismatch),
            }
        },
        Commands::Calc => {
            match input {
                StageInput::Scores(ss) => {
                    let n = do_calc(store, &ss);
                    Ok(StageOutput::Calculated(n))
                },
                _ => Err(PipelineError::InputMismatch),
            }
        },
        Commands::Write { .. } => {
            match input {
                StageInput::Nothing => {
                    let plan = do_write(store);
                    Ok(StageOutput::WritePlan(plan))
                },
                _ => Err(PipelineError::InputMismatch),
            }
        },
        Commands::FixUp => {
            match input {
                StageInput::Nothing => Ok(StageOutput::Done),
                _ => Err(PipelineError::InputMismatch),
            }
        },
    }
}

} // verus!
