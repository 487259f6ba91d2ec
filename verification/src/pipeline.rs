//! The ingestion pipeline: chunk extracted text, assign ids, pair chunks
//! with their embedding vectors, and insert the batch into the store.

use vstd::prelude::*;
use crate::chunker;
use crate::chunker::spec_chunks;
use crate::docs::Document;
use crate::docs::build_documents;
use crate::docs::spec_doc_id;
use crate::index::CollectionModel;
use crate::index::DistanceMetric;
use crate::index::EmbeddedDocument;
use crate::index::IndexError;
use crate::index::PointModel;
use crate::index::VectorIndex;
use crate::index::has_collection;
use crate::index::index_wf;
use crate::index::named;
use crate::index::named_idx;
use crate::index::spec_ensure;
use crate::index::spec_insert;

verus! {

/// Errors of the ingestion pipeline.
#[derive(Clone, Copy, PartialEq, Eq, Structural, Debug)]
pub enum PipelineError {
    /// A source yielded no chunks at all; the run must not silently index
    /// nothing.
    EmptyDocument,
    /// The embedding batch does not line up one-to-one with the documents.
    EmbeddingMismatch,
    /// The target collection does not exist.
    CollectionMissing,
    /// A vector's length differs from the collection's dimensionality.
    DimensionMismatch,
}

impl PipelineError {
    /// A short human-readable description naming the failing stage.
    pub fn describe(&self) -> (s: &'static str)
        ensures
            *self == PipelineError::EmptyDocument ==> s@
                == "source yielded no content chunks"@,
            *self == PipelineError::EmbeddingMismatch ==> s@
                == "embedding batch does not match the documents"@,
            *self == PipelineError::CollectionMissing ==> s@ == "collection does not exist"@,
            *self == PipelineError::DimensionMismatch ==> s@
                == "vector length does not match the collection dimensionality"@,
    {
        match self {
            PipelineError::EmptyDocument => "source yielded no content chunks",
            PipelineError::EmbeddingMismatch => "embedding batch does not match the documents",
            PipelineError::CollectionMissing => "collection does not exist",
            PipelineError::DimensionMismatch => "vector length does not match the collection dimensionality",
        }
    }
}

/// Chunk one source text and assign ids under `id_prefix`. A text with no
/// extractable chunks is rejected outright, before any embedding work.
pub fn prepare_batch(text: &str, id_prefix: &str, max_chunk_size: usize) -> (r: Result<
    Vec<Document>,
    PipelineError,
>)
    ensures
        match r {
            Ok(docs) => {
                &&& spec_chunks(text@, max_chunk_size as nat).len() > 0
                &&& docs@.len() == spec_chunks(text@, max_chunk_size as nat).len()
                &&& forall|k: int|
                    0 <= k < docs@.len() ==> (#[trigger] docs@[k]).id@ == spec_doc_id(
                        id_prefix@,
                        k as nat,
                    ) && docs@[k].content@ == spec_chunks(text@, max_chunk_size as nat)[k]
            },
            Err(e) => e == PipelineError::EmptyDocument && spec_chunks(
                text@,
                max_chunk_size as nat,
            ).len() == 0,
        },
{
    let chunks = chunker::chunk(text, max_chunk_size);
    if chunks.len() == 0 {
        return Err(PipelineError::EmptyDocument);
    }
    let docs = build_documents(&chunks, id_prefix);
    proof {
        assert forall|k: int| 0 <= k < docs@.len() implies (#[trigger] docs@[k]).content@
            == spec_chunks(text@, max_chunk_size as nat)[k] by {
            assert(chunks@[k]@ == chunks@.map_values(|c: String| c@)[k]);
        }
    }
    Ok(docs)
}

/// The stored points a batch of documents and vectors stands for.
pub open spec fn batch_points(docs: Seq<Document>, vecs: Seq<Vec<i32>>) -> Seq<PointModel> {
    Seq::new(
        docs.len(),
        |k: int|
            PointModel {
                id: docs[k].id@,
                content: docs[k].content@,
                vector: vecs[k]@.map_values(|x: i32| x as int),
            },
    )
}

/// Pair documents with their embedding vectors, one to one and in order.
/// A count mismatch fails the whole batch: an ingestion either fully
/// succeeds or leaves the store as it was.
pub fn attach_embeddings(docs: Vec<Document>, vectors: Vec<Vec<i32>>) -> (r: Result<
    Vec<EmbeddedDocument>,
    PipelineError,
>)
    ensures
        match r {
            Ok(embedded) => {
                &&& docs@.len() == vectors@.len()
                &&& embedded@.map_values(|p: EmbeddedDocument| p@) == batch_points(docs@, vectors@)
            },
            Err(e) => e == PipelineError::EmbeddingMismatch && docs@.len() != vectors@.len(),
        },
{
    if docs.len() != vectors.len() {
        return Err(PipelineError::EmbeddingMismatch);
    }
    let ghost origd = docs@;
    let ghost origv = vectors@;
    let mut docs = docs;
    let mut vectors = vectors;
    let mut embedded: Vec<EmbeddedDocument> = Vec::new();
    proof {
        assert(origd.skip(0) =~= origd);
        assert(origv.skip(0) =~= origv);
    }
    while docs.len() > 0
        invariant
            embedded@.len() <= origd.len(),
            origd.len() == origv.len(),
            docs@ == origd.skip(embedded@.len() as int),
            vectors@ == origv.skip(embedded@.len() as int),
            forall|k: int|
                0 <= k < embedded@.len() ==> (#[trigger] embedded@[k])@ == batch_points(
                    origd,
                    origv,
                )[k],
        decreases docs@.len(),
    {
        let ghost i = embedded@.len() as int;
        let d = docs.remove(0);
        let v = vectors.remove(0);
        proof {
            assert(d == origd[i]);
            assert(v == origv[i]);
            assert(origd.skip(i).remove(0) =~= origd.skip(i + 1));
            assert(origv.skip(i).remove(0) =~= origv.skip(i + 1));
        }
        embedded.push(EmbeddedDocument { document: d, vector: v });
    }
    proof {
        assert(embedded@.map_values(|p: EmbeddedDocument| p@) =~= batch_points(origd, origv));
    }
    Ok(embedded)
}

fn from_index_error(e: IndexError) -> (r: PipelineError)
    ensures
        e == IndexError::CollectionMissing ==> r == PipelineError::CollectionMissing,
        e == IndexError::DimensionMismatch ==> r == PipelineError::DimensionMismatch,
{
    match e {
        IndexError::CollectionMissing => PipelineError::CollectionMissing,
        IndexError::DimensionMismatch => PipelineError::DimensionMismatch,
    }
}

/// Complete one source's ingestion: pair the documents with their vectors
/// and insert the whole batch into the named collection. All or nothing:
/// on any error the store is left exactly as it was.
pub fn finish_ingest(
    ix: &mut VectorIndex,
    collection: &String,
    docs: Vec<Document>,
    vectors: Vec<Vec<i32>>,
) -> (r: Result<usize, PipelineError>)
    requires
        index_wf(old(ix)@),
    ensures
        index_wf(final(ix)@),
        match r {
            Ok(n) => {
                &&& docs@.len() == vectors@.len()
                &&& n == docs@.len()
                &&& has_collection(old(ix)@, collection@)
                &&& forall|k: int|
                    0 <= k < docs@.len() ==> (#[trigger] batch_points(docs@, vectors@)[k]).vector.len()
                        == named(old(ix)@, collection@).dims
                &&& final(ix)@ == spec_insert(old(ix)@, collection@, batch_points(docs@, vectors@))
            },
            Err(PipelineError::EmbeddingMismatch) => {
                &&& docs@.len() != vectors@.len()
                &&& final(ix)@ == old(ix)@
            },
            Err(PipelineError::CollectionMissing) => {
                &&& !has_collection(old(ix)@, collection@)
                &&& final(ix)@ == old(ix)@
            },
            Err(PipelineError::DimensionMismatch) => {
                &&& has_collection(old(ix)@, collection@)
                &&& exists|k: int|
                    0 <= k < docs@.len() && (#[trigger] batch_points(docs@, vectors@)[k]).vector.len()
                        != named(old(ix)@, collection@).dims
                &&& final(ix)@ == old(ix)@
            },
            Err(PipelineError::EmptyDocument) => false,
        },
{
    let ghost docs0 = docs@;
    let ghost vecs0 = vectors@;
    let embedded = match attach_embeddings(docs, vectors) {
        Ok(embedded) => embedded,
        Err(e) => {
            return Err(e);
        },
    };
    let ghost em = embedded@.map_values(|p: EmbeddedDocument| p@);
    let ghost bp = batch_points(docs0, vecs0);
    match ix.insert(collection, &embedded) {
        Ok(n) => {
            proof {
                assert forall|k: int| 0 <= k < docs0.len() implies (#[trigger] bp[k]).vector.len()
                    == named(old(ix)@, collection@).dims by {
                    assert(bp[k] == em[k]);
                    assert(em[k] == embedded@[k]@);
                }
            }
            Ok(n)
        },
        Err(e) => {
            proof {
                if e == IndexError::DimensionMismatch {
                    let k = choose|k: int|
                        0 <= k < embedded@.len() && (#[trigger] embedded@[k])@.vector.len()
                            != named(old(ix)@, collection@).dims;
                    assert(bp[k] == em[k] && em[k] == embedded@[k]@);
                    assert(0 <= k < docs0.len() && (#[trigger] bp[k]).vector.len() != named(
                        old(ix)@,
                        collection@,
                    ).dims);
                }
            }
            Err(from_index_error(e))
        },
    }
}

/// One-call ingestion: make sure the target collection exists with the
/// given dimensionality and metric, then insert the batch. Because
/// provisioning runs first, the collection can never be reported missing;
/// a dimensionality mismatch is still rejected, all or nothing.
pub fn ingest(
    ix: &mut VectorIndex,
    collection: &String,
    dims: usize,
    metric: DistanceMetric,
    docs: Vec<Document>,
    vectors: Vec<Vec<i32>>,
) -> (r: Result<usize, PipelineError>)
    requires
        index_wf(old(ix)@),
    ensures
        index_wf(final(ix)@),
        r != Err::<usize, PipelineError>(PipelineError::CollectionMissing),
        r != Err::<usize, PipelineError>(PipelineError::EmptyDocument),
        match r {
            Ok(n) => {
                let provisioned = spec_ensure(old(ix)@, collection@, dims as nat, metric);
                &&& docs@.len() == vectors@.len()
                &&& n == docs@.len()
                &&& forall|k: int|
                    0 <= k < docs@.len() ==> (#[trigger] batch_points(docs@, vectors@)[k]).vector.len()
                        == named(provisioned, collection@).dims
                &&& final(ix)@ == spec_insert(
                    provisioned,
                    collection@,
                    batch_points(docs@, vectors@),
                )
            },
            Err(PipelineError::EmbeddingMismatch) => {
                &&& docs@.len() != vectors@.len()
                &&& final(ix)@ == spec_ensure(old(ix)@, collection@, dims as nat, metric)
            },
            Err(PipelineError::DimensionMismatch) => {
                let provisioned = spec_ensure(old(ix)@, collection@, dims as nat, metric);
                &&& exists|k: int|
                    0 <= k < docs@.len() && (#[trigger] batch_points(docs@, vectors@)[k]).vector.len()
                        != named(provisioned, collection@).dims
                &&& final(ix)@ == provisioned
            },
            _ => false,
        },
{
    ix.ensure_collection(collection, dims, metric);
    finish_ingest(ix, collection, docs, vectors)
}

/// One source document's batch, ready for insertion: its labeled chunks
/// and their embedding vectors.
pub struct SourceBatch {
    pub docs: Vec<Document>,
    pub vectors: Vec<Vec<i32>>,
}

/// The points of one source batch.
pub open spec fn batch_pts(b: SourceBatch) -> Seq<PointModel> {
    batch_points(b.docs@, b.vectors@)
}

/// How many documents the first `upto` batches hold together.
pub open spec fn total_docs(batches: Seq<SourceBatch>, upto: int) -> nat
    decreases upto,
{
    if upto <= 0 {
        0
    } else {
        total_docs(batches, upto - 1) + batches[upto - 1].docs@.len()
    }
}

/// The store after provisioning the collection and inserting the first
/// `upto` batches, in order.
pub open spec fn ingested_store(
    s: Seq<CollectionModel>,
    name: Seq<char>,
    dims: nat,
    metric: DistanceMetric,
    batches: Seq<SourceBatch>,
    upto: int,
) -> Seq<CollectionModel>
    decreases upto,
{
    if upto <= 0 {
        spec_ensure(s, name, dims, metric)
    } else {
        spec_insert(
            ingested_store(s, name, dims, metric, batches, upto - 1),
            name,
            batch_pts(batches[upto - 1]),
        )
    }
}

proof fn lemma_total_docs_monotone(batches: Seq<SourceBatch>, i: int, j: int)
    requires
        0 <= i <= j,
    ensures
        total_docs(batches, i) <= total_docs(batches, j),
    decreases j - i,
{
    if i < j {
        lemma_total_docs_monotone(batches, i, j - 1);
    }
}

/// Ingest one or more source batches into the named collection: the
/// collection is provisioned once, before any insert, and the batches are
/// inserted in order. Fails fast: the first batch that cannot be inserted
/// aborts the run, leaving the collection with exactly the batches
/// inserted before it; on success the total count of inserted vectors is
/// returned.
#[verifier::loop_isolation(false)]
pub fn ingest_sources(
    ix: &mut VectorIndex,
    collection: &String,
    dims: usize,
    metric: DistanceMetric,
    batches: Vec<SourceBatch>,
) -> (r: Result<usize, PipelineError>)
    requires
        index_wf(old(ix)@),
        total_docs(batches@, batches@.len() as int) <= usize::MAX,
    ensures
        index_wf(final(ix)@),
        has_collection(final(ix)@, collection@),
        r != Err::<usize, PipelineError>(PipelineError::CollectionMissing),
        r != Err::<usize, PipelineError>(PipelineError::EmptyDocument),
        match r {
            Ok(n) => {
                &&& n == total_docs(batches@, batches@.len() as int)
                &&& final(ix)@ == ingested_store(
                    old(ix)@,
                    collection@,
                    dims as nat,
                    metric,
                    batches@,
                    batches@.len() as int,
                )
            },
            Err(e) => exists|j: int|
                {
                    &&& 0 <= j < batches@.len()
                    &&& final(ix)@ == #[trigger] ingested_store(
                        old(ix)@,
                        collection@,
                        dims as nat,
                        metric,
                        batches@,
                        j,
                    )
                    &&& (e == PipelineError::EmbeddingMismatch ==> batches@[j].docs@.len()
                        != batches@[j].vectors@.len())
                    &&& (e == PipelineError::DimensionMismatch ==> exists|k: int|
                        0 <= k < batches@[j].docs@.len() && (#[trigger] batch_pts(
                            batches@[j],
                        )[k]).vector.len() != named(
                            ingested_store(
                                old(ix)@,
                                collection@,
                                dims as nat,
                                metric,
                                batches@,
                                j,
                            ),
                            collection@,
                        ).dims)
                    &&& (e == PipelineError::EmbeddingMismatch || e
                        == PipelineError::DimensionMismatch)
                },
        },
{
    let ghost olds = old(ix)@;
    let ghost allb = batches@;
    let mut batches = batches;
    let mut n: usize = 0;
    let ghost mut i: int = 0;
    ix.ensure_collection(collection, dims, metric);
    proof {
        assert(allb.skip(0) =~= allb);
        assert(ix@ == ingested_store(olds, collection@, dims as nat, metric, allb, 0));
    }
    while batches.len() > 0
        invariant
            0 <= i <= allb.len(),
            batches@ == allb.skip(i),
            ix@ == ingested_store(olds, collection@, dims as nat, metric, allb, i),
            index_wf(ix@),
            has_collection(ix@, collection@),
            n as nat == total_docs(allb, i),
        decreases batches@.len(),
    {
        let b = batches.remove(0);
        proof {
            assert(b == allb[i]);
            assert(allb.skip(i).remove(0) =~= allb.skip(i + 1));
        }
        let ghost before = ix@;
        let ghost bd = b.docs@;
        let ghost bv = b.vectors@;
        let m = match finish_ingest(ix, collection, b.docs, b.vectors) {
            Ok(m) => m,
            Err(e) => {
                proof {
                    let j = i;
                    assert(batch_pts(allb[j]) =~= batch_points(bd, bv));
                    assert(0 <= j < allb.len() && ix@ == ingested_store(
                        olds,
                        collection@,
                        dims as nat,
                        metric,
                        allb,
                        j,
                    ));
                }
                return Err(e);
            },
        };
        proof {
            assert(batch_pts(allb[i]) =~= batch_points(bd, bv));
            assert(ix@ == ingested_store(olds, collection@, dims as nat, metric, allb, i + 1));
            lemma_total_docs_monotone(allb, i + 1, allb.len() as int);
            let prev = before;
            let idx = named_idx(prev, collection@);
            assert(0 <= idx < prev.len() && prev[idx].name == collection@);
            assert(ix@[idx].name == collection@);
            i = i + 1;
        }
        n = n + m;
    }
    proof {
        assert(allb.skip(i).len() == 0);
        assert(i == allb.len());
    }
    Ok(n)
}

} // verus!
