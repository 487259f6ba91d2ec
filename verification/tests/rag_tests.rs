use rag_pipeline::chunker::chunk;
use rag_pipeline::chunker::tokenize;
use rag_pipeline::docs::Document;
use rag_pipeline::docs::build_documents;
use rag_pipeline::docs::make_id;
use rag_pipeline::index::DistanceMetric;
use rag_pipeline::index::EmbeddedDocument;
use rag_pipeline::index::IndexError;
use rag_pipeline::index::VectorIndex;
use rag_pipeline::pipeline::PipelineError;
use rag_pipeline::pipeline::attach_embeddings;
use rag_pipeline::pipeline::finish_ingest;
use rag_pipeline::pipeline::ingest;
use rag_pipeline::pipeline::SourceBatch;
use rag_pipeline::pipeline::ingest_sources;
use rag_pipeline::pipeline::prepare_batch;
use rag_pipeline::prompt::build_prompt;
use rag_pipeline::prompt::render_user_message;

fn s(v: &str) -> String {
    v.to_string()
}

#[test]
fn chunk_empty_text_yields_no_chunks() {
    let chunks = chunk("", 13);
    assert!(chunks.is_empty());
}

#[test]
fn chunk_single_token() {
    let chunks = chunk("a", 13);
    assert_eq!(chunks, vec![s("a")]);
}

#[test]
fn chunk_five_words_cap_thirteen() {
    let chunks = chunk("one two three four five", 13);
    assert_eq!(chunks, vec![s("one two"), s("three four"), s("five")]);
}

#[test]
fn chunk_oversized_token_is_emitted_unsplit() {
    let chunks = chunk("abcdefghij", 3);
    assert_eq!(chunks, vec![s("abcdefghij")]);
}

#[test]
fn chunk_trims_surrounding_whitespace() {
    let chunks = chunk("  hello   world  ", 5);
    assert_eq!(chunks, vec![s("hello"), s("world")]);
    for c in &chunks {
        assert!(!c.is_empty());
        assert_eq!(c.trim(), c);
    }
}

#[test]
fn chunk_mixed_whitespace_collapses_to_single_spaces() {
    let chunks = chunk("a\tb\nc  d\r\ne", 1000);
    assert_eq!(chunks, vec![s("a b c d e")]);
}

#[test]
fn chunk_preserves_token_sequence() {
    let text = "alpha beta gamma delta epsilon zeta eta theta";
    let chunks = chunk(text, 12);
    let mut recovered: Vec<String> = Vec::new();
    for c in &chunks {
        for w in c.split_whitespace() {
            recovered.push(w.to_string());
        }
    }
    let expected: Vec<String> = text.split_whitespace().map(|w| w.to_string()).collect();
    assert_eq!(recovered, expected);
}

#[test]
fn chunk_respects_soft_cap() {
    let text = "aa bbb cccc ddddd eeeeee fffffff gggggggggggggggg";
    let max = 9;
    for c in chunk(text, max) {
        assert!(c.len() <= max || !c.contains(' '));
    }
}

#[test]
fn tokenize_splits_on_any_whitespace() {
    assert_eq!(tokenize("a b  c\td\ne"), vec![s("a"), s("b"), s("c"), s("d"), s("e")]);
    assert!(tokenize("   ").is_empty());
}

#[test]
fn make_id_formats_prefix_and_index() {
    assert_eq!(make_id("chessboard", 0), s("chessboard_0"));
    assert_eq!(make_id("chessboard", 7), s("chessboard_7"));
    assert_eq!(make_id("p", 11), s("p_11"));
    assert_eq!(make_id("p", 105), s("p_105"));
}

#[test]
fn build_documents_assigns_positional_ids() {
    let chunks = vec![s("first"), s("second"), s("third")];
    let docs = build_documents(&chunks, "chessboard");
    assert_eq!(docs.len(), 3);
    assert_eq!(docs[0].id, s("chessboard_0"));
    assert_eq!(docs[1].id, s("chessboard_1"));
    assert_eq!(docs[2].id, s("chessboard_2"));
    assert_eq!(docs[1].content, s("second"));
}

#[test]
fn reingesting_same_text_yields_identical_ids() {
    let text = "the same source text ingested twice";
    let first = prepare_batch(text, "doc", 10).unwrap();
    let second = prepare_batch(text, "doc", 10).unwrap();
    let first_ids: Vec<String> = first.iter().map(|d| d.id.clone()).collect();
    let second_ids: Vec<String> = second.iter().map(|d| d.id.clone()).collect();
    assert_eq!(first_ids, second_ids);
}

#[test]
fn ensure_collection_twice_leaves_one_collection() {
    let mut ix = VectorIndex::new();
    let name = s("chessboard");
    ix.ensure_collection(&name, 1024, DistanceMetric::Cosine);
    ix.ensure_collection(&name, 1024, DistanceMetric::Cosine);
    assert_eq!(ix.collections.len(), 1);
    assert!(ix.collection_exists(&name));
    assert_eq!(ix.collections[0].dims, 1024);
}

#[test]
fn fresh_store_has_no_collections() {
    let ix = VectorIndex::new();
    assert!(ix.collections.is_empty());
    assert!(!ix.collection_exists(&s("anything")));
}

#[test]
fn insert_rejects_mismatched_vector_length() {
    let mut ix = VectorIndex::new();
    let name = s("c");
    ix.ensure_collection(&name, 3, DistanceMetric::Cosine);
    let batch = vec![
        EmbeddedDocument {
            document: Document { id: s("c_0"), content: s("ok") },
            vector: vec![1, 2, 3],
        },
        EmbeddedDocument {
            document: Document { id: s("c_1"), content: s("short") },
            vector: vec![1, 2],
        },
    ];
    let r = ix.insert(&name, &batch);
    assert_eq!(r, Err(IndexError::DimensionMismatch));
    assert_eq!(ix.collections[0].points.len(), 0);
}

#[test]
fn insert_into_missing_collection_fails() {
    let mut ix = VectorIndex::new();
    let r = ix.insert(&s("nowhere"), &Vec::new());
    assert_eq!(r, Err(IndexError::CollectionMissing));
}

#[test]
fn insert_appends_whole_batch() {
    let mut ix = VectorIndex::new();
    let name = s("c");
    ix.ensure_collection(&name, 2, DistanceMetric::Dot);
    let batch = vec![
        EmbeddedDocument {
            document: Document { id: s("c_0"), content: s("zero") },
            vector: vec![1, 0],
        },
        EmbeddedDocument {
            document: Document { id: s("c_1"), content: s("one") },
            vector: vec![0, 1],
        },
    ];
    let r = ix.insert(&name, &batch);
    assert_eq!(r, Ok(2));
    assert_eq!(ix.collections[0].points.len(), 2);
    assert_eq!(ix.collections[0].points[0].document.id, s("c_0"));
}

#[test]
fn query_on_empty_collection_returns_nothing_and_prompt_degrades() {
    let mut ix = VectorIndex::new();
    let name = s("fresh");
    ix.ensure_collection(&name, 2, DistanceMetric::Cosine);
    let results = ix.query(&name, &vec![1, 1], 4).unwrap();
    assert!(results.is_empty());
    let prompt = build_prompt("preamble", &results, "what is this about?");
    assert!(prompt.context.is_empty());
    let message = render_user_message(&prompt);
    assert_eq!(message, s("what is this about?"));
}

#[test]
fn query_returns_results_in_non_increasing_score_order() {
    let mut ix = VectorIndex::new();
    let name = s("c");
    ix.ensure_collection(&name, 2, DistanceMetric::Dot);
    let batch = vec![
        EmbeddedDocument {
            document: Document { id: s("c_0"), content: s("east") },
            vector: vec![1, 0],
        },
        EmbeddedDocument {
            document: Document { id: s("c_1"), content: s("north") },
            vector: vec![0, 1],
        },
        EmbeddedDocument {
            document: Document { id: s("c_2"), content: s("far east") },
            vector: vec![2, 0],
        },
    ];
    ix.insert(&name, &batch).unwrap();
    let results = ix.query(&name, &vec![3, 1], 3).unwrap();
    assert_eq!(results.len(), 3);
    assert_eq!(results[0].document.id, s("c_2"));
    assert_eq!(results[0].score, 6);
    assert_eq!(results[1].document.id, s("c_0"));
    assert_eq!(results[1].score, 3);
    assert_eq!(results[2].document.id, s("c_1"));
    assert_eq!(results[2].score, 1);
    for w in results.windows(2) {
        assert!(w[0].score >= w[1].score);
    }
}

#[test]
fn query_truncates_to_top_k() {
    let mut ix = VectorIndex::new();
    let name = s("c");
    ix.ensure_collection(&name, 1, DistanceMetric::Dot);
    let batch = vec![
        EmbeddedDocument {
            document: Document { id: s("c_0"), content: s("low") },
            vector: vec![1],
        },
        EmbeddedDocument {
            document: Document { id: s("c_1"), content: s("high") },
            vector: vec![10],
        },
        EmbeddedDocument {
            document: Document { id: s("c_2"), content: s("mid") },
            vector: vec![5],
        },
    ];
    ix.insert(&name, &batch).unwrap();
    let results = ix.query(&name, &vec![1], 2).unwrap();
    assert_eq!(results.len(), 2);
    assert_eq!(results[0].document.id, s("c_1"));
    assert_eq!(results[1].document.id, s("c_2"));
}

#[test]
fn query_with_wrong_dimensionality_is_rejected() {
    let mut ix = VectorIndex::new();
    let name = s("c");
    ix.ensure_collection(&name, 3, DistanceMetric::Cosine);
    let r = ix.query(&name, &vec![1, 2], 4);
    assert!(matches!(r, Err(IndexError::DimensionMismatch)));
}

#[test]
fn query_against_missing_collection_fails() {
    let ix = VectorIndex::new();
    let r = ix.query(&s("absent"), &vec![1], 4);
    assert!(matches!(r, Err(IndexError::CollectionMissing)));
}

#[test]
fn prepare_batch_of_empty_source_is_fatal() {
    assert!(matches!(prepare_batch("", "doc", 1000), Err(PipelineError::EmptyDocument)));
    assert!(matches!(prepare_batch(" \t \n ", "doc", 1000), Err(PipelineError::EmptyDocument)));
}

#[test]
fn prepare_batch_chunks_and_labels() {
    let docs = prepare_batch("one two three four five", "chessboard", 13).unwrap();
    assert_eq!(docs.len(), 3);
    assert_eq!(docs[0].id, s("chessboard_0"));
    assert_eq!(docs[0].content, s("one two"));
    assert_eq!(docs[1].content, s("three four"));
    assert_eq!(docs[2].content, s("five"));
}

#[test]
fn attach_embeddings_requires_one_vector_per_document() {
    let docs = vec![
        Document { id: s("d_0"), content: s("a") },
        Document { id: s("d_1"), content: s("b") },
    ];
    let r = attach_embeddings(docs, vec![vec![1, 2]]);
    assert!(matches!(r, Err(PipelineError::EmbeddingMismatch)));
}

#[test]
fn finish_ingest_inserts_everything() {
    let mut ix = VectorIndex::new();
    let name = s("chessboard");
    ix.ensure_collection(&name, 2, DistanceMetric::Cosine);
    let docs = prepare_batch("rook knight bishop", "chessboard", 6).unwrap();
    assert_eq!(docs.len(), 3);
    let vectors = vec![vec![1, 0], vec![0, 1], vec![1, 1]];
    let n = finish_ingest(&mut ix, &name, docs, vectors).unwrap();
    assert_eq!(n, 3);
    assert_eq!(ix.collections[0].points.len(), 3);
    let results = ix.query(&name, &vec![1, 0], 4).unwrap();
    assert_eq!(results.len(), 3);
}

#[test]
fn ingest_provisions_then_inserts() {
    let mut ix = VectorIndex::new();
    let name = s("auto");
    let docs = vec![Document { id: s("auto_0"), content: s("only") }];
    let n = ingest(&mut ix, &name, 2, DistanceMetric::Cosine, docs, vec![vec![4, 5]]).unwrap();
    assert_eq!(n, 1);
    assert!(ix.collection_exists(&name));
    assert_eq!(ix.collections.len(), 1);
    assert_eq!(ix.collections[0].points.len(), 1);
}

#[test]
fn ingest_rejects_uneven_batch() {
    let mut ix = VectorIndex::new();
    let name = s("auto");
    let docs = vec![
        Document { id: s("auto_0"), content: s("one") },
        Document { id: s("auto_1"), content: s("two") },
    ];
    let r = ingest(&mut ix, &name, 2, DistanceMetric::Cosine, docs, vec![vec![1, 2]]);
    assert_eq!(r, Err(PipelineError::EmbeddingMismatch));
    assert!(ix.collection_exists(&name));
    assert_eq!(ix.collections[0].points.len(), 0);
}

#[test]
fn ingest_rejects_mismatched_dimensionality() {
    let mut ix = VectorIndex::new();
    let name = s("auto");
    ix.ensure_collection(&name, 3, DistanceMetric::Cosine);
    let docs = vec![Document { id: s("auto_0"), content: s("only") }];
    let r = ingest(&mut ix, &name, 3, DistanceMetric::Cosine, docs, vec![vec![1, 2]]);
    assert_eq!(r, Err(PipelineError::DimensionMismatch));
    assert_eq!(ix.collections[0].points.len(), 0);
}

#[test]
fn ingest_sources_provisions_once_and_sums_counts() {
    let mut ix = VectorIndex::new();
    let name = s("library");
    let batches = vec![
        SourceBatch {
            docs: vec![Document { id: s("a_0"), content: s("first source") }],
            vectors: vec![vec![1, 0]],
        },
        SourceBatch {
            docs: vec![
                Document { id: s("b_0"), content: s("second source, part one") },
                Document { id: s("b_1"), content: s("second source, part two") },
            ],
            vectors: vec![vec![0, 1], vec![1, 1]],
        },
    ];
    let n = ingest_sources(&mut ix, &name, 2, DistanceMetric::Cosine, batches).unwrap();
    assert_eq!(n, 3);
    assert_eq!(ix.collections.len(), 1);
    assert_eq!(ix.collections[0].points.len(), 3);
    assert_eq!(ix.collections[0].points[0].document.id, s("a_0"));
    assert_eq!(ix.collections[0].points[2].document.id, s("b_1"));
}

#[test]
fn ingest_sources_fails_fast_and_keeps_prior_batches() {
    let mut ix = VectorIndex::new();
    let name = s("library");
    let batches = vec![
        SourceBatch {
            docs: vec![Document { id: s("a_0"), content: s("good") }],
            vectors: vec![vec![1, 0]],
        },
        SourceBatch {
            docs: vec![Document { id: s("b_0"), content: s("bad vector") }],
            vectors: vec![vec![1, 2, 3]],
        },
        SourceBatch {
            docs: vec![Document { id: s("c_0"), content: s("never reached") }],
            vectors: vec![vec![0, 1]],
        },
    ];
    let r = ingest_sources(&mut ix, &name, 2, DistanceMetric::Cosine, batches);
    assert_eq!(r, Err(PipelineError::DimensionMismatch));
    assert_eq!(ix.collections[0].points.len(), 1);
    assert_eq!(ix.collections[0].points[0].document.id, s("a_0"));
}

#[test]
fn errors_name_their_stage() {
    assert_eq!(
        PipelineError::EmptyDocument.describe(),
        "source yielded no content chunks"
    );
    assert_eq!(IndexError::CollectionMissing.describe(), "collection does not exist");
    assert_eq!(
        IndexError::DimensionMismatch.describe(),
        "vector length does not match the collection dimensionality"
    );
}

#[test]
fn prompt_renders_context_then_question() {
    let mut ix = VectorIndex::new();
    let name = s("c");
    ix.ensure_collection(&name, 1, DistanceMetric::Dot);
    let batch = vec![
        EmbeddedDocument {
            document: Document { id: s("c_0"), content: s("first passage") },
            vector: vec![2],
        },
        EmbeddedDocument {
            document: Document { id: s("c_1"), content: s("second passage") },
            vector: vec![1],
        },
    ];
    ix.insert(&name, &batch).unwrap();
    let results = ix.query(&name, &vec![1], 2).unwrap();
    let prompt = build_prompt("you are a helpful assistant", &results, "which passage?");
    assert_eq!(prompt.preamble, s("you are a helpful assistant"));
    assert_eq!(prompt.context.len(), 2);
    assert_eq!(prompt.context[0].content, s("first passage"));
    let message = render_user_message(&prompt);
    assert_eq!(message, s("first passage\nsecond passage\nwhich passage?"));
}
