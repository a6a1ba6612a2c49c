use hugo_ai::error::PipelineError;
use hugo_ai::pipeline::all_pairs;
use hugo_ai::pipeline::check_comparable;
use hugo_ai::pipeline::run;
use hugo_ai::pipeline::Commands;
use hugo_ai::pipeline::RelatedPlan;
use hugo_ai::pipeline::StageInput;
use hugo_ai::pipeline::StageOutput;
use hugo_ai::related::SIMILARITY_SCALE;
use hugo_ai::store::ChunkEmbedding;
use hugo_ai::store::GatheredFile;
use hugo_ai::store::PairScore;
use hugo_ai::store::Store;

fn file(name: &str, title: &str, chunks: &[&str]) -> GatheredFile {
    GatheredFile {
        filename: name.as_bytes().to_vec(),
        title: title.as_bytes().to_vec(),
        url: b"/post".to_vec(),
        date: None,
        is_draft: false,
        chunks: chunks.iter().map(|c| c.as_bytes().to_vec()).collect(),
    }
}

fn to_bits(v: &[f64]) -> Vec<u64> {
    v.iter().map(|x| x.to_bits()).collect()
}

fn from_bits(v: &[u64]) -> Vec<f64> {
    v.iter().map(|x| f64::from_bits(*x)).collect()
}

fn cosine(a: &[f64], b: &[f64]) -> f64 {
    assert_eq!(a.len(), b.len());
    let dot: f64 = a.iter().zip(b.iter()).map(|(x, y)| x * y).sum();
    let na: f64 = a.iter().map(|x| x * x).sum::<f64>().sqrt();
    let nb: f64 = b.iter().map(|x| x * x).sum::<f64>().sqrt();
    dot / (na * nb)
}

/// Mean cosine over every cross pair of the two articles' chunk
/// embeddings, scaled to signed millionths.
fn scaled_pair_similarity(store: &Store, a: u64, b: u64) -> i64 {
    let ea = store.embedded_chunks(a);
    let eb = store.embedded_chunks(b);
    check_comparable(a, &ea, b, &eb).unwrap();
    let mut sum = 0.0;
    let mut n = 0usize;
    for va in &ea {
        for vb in &eb {
            sum += cosine(&from_bits(va), &from_bits(vb));
            n += 1;
        }
    }
    ((sum / n as f64) * SIMILARITY_SCALE as f64).round() as i64
}

fn embed_all(store: &mut Store, vectors: &[(u64, Vec<f64>)]) {
    let mut batch = Vec::new();
    for (id, v) in vectors {
        for todo in store.chunks_needing_embedding(*id) {
            batch.push(ChunkEmbedding { article: *id, chunk: todo.index, bits: to_bits(v) });
        }
    }
    match run(store, &Commands::Embed, StageInput::Embeddings(batch)) {
        Ok(StageOutput::Embedded(_)) => {}
        other => panic!("embed stage failed: {:?}", other.is_ok()),
    }
}

fn calc_all(store: &mut Store) {
    let ids = store.active_article_ids();
    let pairs = all_pairs(&ids);
    let mut scores = Vec::new();
    for (x, y) in pairs {
        scores.push(PairScore { a: x, b: y, similarity: scaled_pair_similarity(store, x, y) });
    }
    match run(store, &Commands::Calc, StageInput::Scores(scores)) {
        Ok(StageOutput::Calculated(_)) => {}
        other => panic!("calc stage failed: {:?}", other.is_ok()),
    }
}

fn write_plan(store: &mut Store) -> Vec<RelatedPlan> {
    let cmd = Commands::Write {
        directory: String::from("posts"),
        no_backup: false,
        dry_run: false,
    };
    match run(store, &cmd, StageInput::Nothing) {
        Ok(StageOutput::WritePlan(plan)) => plan,
        other => panic!("write stage failed: {:?}", other.is_ok()),
    }
}

#[test]
fn all_pairs_enumerates_each_unordered_pair_once() {
    let ids = vec![1u64, 2, 3];
    assert_eq!(all_pairs(&ids), vec![(1, 2), (1, 3), (2, 3)]);
    assert_eq!(all_pairs(&vec![7]), Vec::<(u64, u64)>::new());
    assert_eq!(all_pairs(&Vec::new()), Vec::<(u64, u64)>::new());
}

#[test]
fn fixup_runs_without_touching_the_store() {
    let mut store = Store::new();
    store.gather_file(&file("a.md", "A", &["text"]));
    match run(&mut store, &Commands::FixUp, StageInput::Nothing) {
        Ok(StageOutput::Done) => {}
        other => panic!("unexpected fixup result: {:?}", other.is_ok()),
    }
    assert_eq!(store.article_count(), 1);
    assert_eq!(store.chunk_count(), 1);
}

#[test]
fn stage_outputs_count_what_was_applied() {
    let mut store = Store::new();
    let cmd = Commands::Gather { directory: String::from("posts") };
    let files = vec![file("a.md", "A", &["one"]), file("b.md", "B", &["two"])];
    match run(&mut store, &cmd, StageInput::Files(files)) {
        Ok(StageOutput::Gathered(n)) => assert_eq!(n, 2),
        other => panic!("gather stage failed: {:?}", other.is_ok()),
    }
    let batch = vec![
        ChunkEmbedding { article: 1, chunk: 0, bits: to_bits(&[1.0]) },
        ChunkEmbedding { article: 2, chunk: 0, bits: to_bits(&[1.0]) },
    ];
    match run(&mut store, &Commands::Embed, StageInput::Embeddings(batch)) {
        Ok(StageOutput::Embedded(n)) => assert_eq!(n, 2),
        other => panic!("embed stage failed: {:?}", other.is_ok()),
    }
    assert_eq!(store.embedded_chunks(1).len(), 1);
    assert_eq!(store.embedded_chunks(2).len(), 1);
}

#[test]
fn mismatched_stage_input_is_rejected_and_store_untouched() {
    let mut store = Store::new();
    store.gather_file(&file("a.md", "A", &["text"]));
    let r = run(&mut store, &Commands::Embed, StageInput::Nothing);
    assert_eq!(r.unwrap_err(), PipelineError::InputMismatch);
    assert_eq!(store.article_count(), 1);
}

#[test]
fn comparability_errors_name_the_offending_articles() {
    let empty: Vec<Vec<u64>> = Vec::new();
    let one = vec![vec![1u64, 2, 3]];
    let other = vec![vec![4u64, 5]];
    assert_eq!(
        check_comparable(7, &empty, 8, &one).unwrap_err(),
        PipelineError::NoEmbeddedChunks { article: 7 }
    );
    assert_eq!(
        check_comparable(7, &one, 8, &empty).unwrap_err(),
        PipelineError::NoEmbeddedChunks { article: 8 }
    );
    assert_eq!(
        check_comparable(7, &one, 8, &other).unwrap_err(),
        PipelineError::DimensionMismatch { a: 7, b: 8 }
    );
    assert!(check_comparable(7, &one, 8, &one).is_ok());
}

#[test]
fn identical_articles_score_a_full_unit() {
    // Two articles whose chunks embed to the same vector: every cross
    // cosine is exactly 1, so the stored pair similarity is the whole
    // scale.
    let mut store = Store::new();
    let files = vec![
        file("a.md", "A", &["same text", "more same text"]),
        file("b.md", "B", &["same text", "more same text"]),
    ];
    let cmd = Commands::Gather { directory: String::from("posts") };
    run(&mut store, &cmd, StageInput::Files(files)).unwrap();
    let v = vec![0.6, 0.8];
    embed_all(&mut store, &[(1, v.clone()), (2, v.clone())]);
    calc_all(&mut store);
    assert_eq!(store.pair_count(), 1);
    let row = store.pair_at(0);
    assert_eq!((row.a, row.b), (1, 2));
    assert_eq!(row.similarity, SIMILARITY_SCALE);
}

#[test]
fn gather_embed_calc_write_relates_the_similar_pair_only() {
    let mut store = Store::new();
    let files = vec![
        file("a.md", "First post", &["alpha text", "alpha tail"]),
        file("b.md", "Second post", &["alpha text", "beta tail"]),
        file("c.md", "Third post", &["gamma text"]),
    ];
    let cmd = Commands::Gather { directory: String::from("posts") };
    match run(&mut store, &cmd, StageInput::Files(files)) {
        Ok(StageOutput::Gathered(n)) => assert_eq!(n, 3),
        other => panic!("gather stage failed: {:?}", other.is_ok()),
    }

    // A and B embed almost alike; C is orthogonal to both.
    embed_all(
        &mut store,
        &[
            (1, vec![1.0, 0.05]),
            (2, vec![0.98, 0.12]),
            (3, vec![0.0, 1.0]),
        ],
    );
    calc_all(&mut store);

    // The similar pair scores high, the unrelated ones low.
    assert_eq!(store.pair_count(), 3);
    let sim_ab = scaled_pair_similarity(&store, 1, 2);
    let sim_ac = scaled_pair_similarity(&store, 1, 3);
    let sim_bc = scaled_pair_similarity(&store, 2, 3);
    assert!(sim_ab > 900_000);
    assert!(sim_ac < 200_000);
    assert!(sim_bc < 400_000);

    // The write plan relates A and B to each other and leaves C out.
    let plan = write_plan(&mut store);
    assert_eq!(plan.len(), 2);
    assert_eq!(plan[0].article, 1);
    assert_eq!(plan[0].filename, b"a.md".to_vec());
    assert_eq!(plan[0].related, vec![b"b.md".to_vec()]);
    assert_eq!(plan[1].article, 2);
    assert_eq!(plan[1].related, vec![b"a.md".to_vec()]);

    // Running the write stage again over unchanged similarity data
    // plans the same writes; the per-file merge then refuses them
    // because the related lists are no longer empty.
    let again = write_plan(&mut store);
    assert_eq!(again.len(), 2);
    assert_eq!(again[0].related, plan[0].related);
    assert_eq!(again[1].related, plan[1].related);
}

#[test]
fn draft_articles_never_appear_in_the_plan() {
    let mut store = Store::new();
    let mut draft = file("d.md", "Draft", &["alpha text"]);
    draft.is_draft = true;
    let files = vec![file("a.md", "A", &["alpha text"]), draft];
    let cmd = Commands::Gather { directory: String::from("posts") };
    run(&mut store, &cmd, StageInput::Files(files)).unwrap();
    embed_all(&mut store, &[(1, vec![1.0, 0.0])]);
    calc_all(&mut store);
    // Only one active article: no pairs, nothing to relate.
    assert_eq!(store.pair_count(), 0);
    assert!(write_plan(&mut store).is_empty());
}
