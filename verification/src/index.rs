//! An in-memory model of the vector collection store: named collections
//! with a fixed dimensionality and distance metric, holding embedded
//! documents. Provisioning is idempotent, inserts reject vectors whose
//! length differs from the collection's dimensionality, and queries return
//! the stored points ranked by similarity to the query vector.
//!
//! Vector components are fixed-point integers: callers scale the
//! provider's floating-point coordinates to integers before handing them
//! in, which keeps similarity comparisons exact.

use vstd::prelude::*;
use vstd::multiset::Multiset;
use crate::docs::Document;

verus! {

/// Distance metric a collection is configured with.
#[derive(Clone, Copy, PartialEq, Eq, Structural, Debug)]
pub enum DistanceMetric {
    Cosine,
    Euclid,
    Dot,
}

/// Errors of the collection store.
#[derive(Clone, Copy, PartialEq, Eq, Structural, Debug)]
pub enum IndexError {
    /// The named collection does not exist.
    CollectionMissing,
    /// A vector's length differs from the collection's dimensionality.
    DimensionMismatch,
}

impl IndexError {
    /// A short human-readable description naming the failing operation.
    pub fn describe(&self) -> (s: &'static str)
        ensures
            *self == IndexError::CollectionMissing ==> s@ == "collection does not exist"@,
            *self == IndexError::DimensionMismatch ==> s@
                == "vector length does not match the collection dimensionality"@,
    {
        match self {
            IndexError::CollectionMissing => "collection does not exist",
            IndexError::DimensionMismatch => "vector length does not match the collection dimensionality",
        }
    }
}

/// A document together with its embedding vector.
pub struct EmbeddedDocument {
    pub document: Document,
    pub vector: Vec<i32>,
}

impl Clone for EmbeddedDocument {
    fn clone(&self) -> (r: EmbeddedDocument)
        ensures
            r@ == self@,
    {
        let mut vector: Vec<i32> = Vec::new();
        let mut i: usize = 0;
        while i < self.vector.len()
            invariant
                i <= self.vector@.len(),
                vector@ == self.vector@.take(i as int),
            decreases self.vector@.len() - i,
        {
            vector.push(self.vector[i]);
            proof {
                assert(vector@ =~= self.vector@.take(i as int + 1));
            }
            i = i + 1;
        }
        proof {
            assert(self.vector@.take(self.vector@.len() as int) =~= self.vector@);
        }
        let r = EmbeddedDocument { document: self.document.clone(), vector };
        proof {
            assert(r@ =~= self@);
        }
        r
    }
}

/// Ghost model of one stored point.
pub ghost struct PointModel {
    pub id: Seq<char>,
    pub content: Seq<char>,
    pub vector: Seq<int>,
}

impl View for EmbeddedDocument {
    type V = PointModel;

    open spec fn view(&self) -> PointModel {
        PointModel {
            id: self.document.id@,
            content: self.document.content@,
            vector: self.vector@.map_values(|x: i32| x as int),
        }
    }
}

/// Ghost model of one collection.
pub ghost struct CollectionModel {
    pub name: Seq<char>,
    pub dims: nat,
    pub metric: DistanceMetric,
    pub points: Seq<PointModel>,
}

/// One named collection with fixed dimensionality and metric.
pub struct Collection {
    pub name: String,
    pub dims: usize,
    pub metric: DistanceMetric,
    pub points: Vec<EmbeddedDocument>,
}

impl View for Collection {
    type V = CollectionModel;

    open spec fn view(&self) -> CollectionModel {
        CollectionModel {
            name: self.name@,
            dims: self.dims as nat,
            metric: self.metric,
            points: self.points@.map_values(|p: EmbeddedDocument| p@),
        }
    }
}

/// The collection store.
pub struct VectorIndex {
    pub collections: Vec<Collection>,
}

impl View for VectorIndex {
    type V = Seq<CollectionModel>;

    open spec fn view(&self) -> Seq<CollectionModel> {
        self.collections@.map_values(|c: Collection| c@)
    }
}

/// Every stored vector has exactly the collection's dimensionality.
pub open spec fn collection_wf(c: CollectionModel) -> bool {
    forall|k: int| 0 <= k < c.points.len() ==> (#[trigger] c.points[k]).vector.len() == c.dims
}

/// Store invariant: collection names are unique, and every collection is
/// well-formed.
pub open spec fn index_wf(s: Seq<CollectionModel>) -> bool {
    &&& forall|i: int, j: int|
        0 <= i < j < s.len() ==> (#[trigger] s[i]).name != (#[trigger] s[j]).name
    &&& forall|i: int| 0 <= i < s.len() ==> collection_wf(#[trigger] s[i])
}

/// Whether a collection with this name exists.
pub open spec fn has_collection(s: Seq<CollectionModel>, name: Seq<char>) -> bool {
    exists|i: int| 0 <= i < s.len() && (#[trigger] s[i]).name == name
}

/// The position of the named collection (meaningful when it exists and
/// names are unique).
pub open spec fn named_idx(s: Seq<CollectionModel>, name: Seq<char>) -> int {
    choose|i: int| 0 <= i < s.len() && (#[trigger] s[i]).name == name
}

/// The named collection.
pub open spec fn named(s: Seq<CollectionModel>, name: Seq<char>) -> CollectionModel {
    s[named_idx(s, name)]
}

/// Provisioning step: create the collection only when the name is absent.
pub open spec fn spec_ensure(
    s: Seq<CollectionModel>,
    name: Seq<char>,
    dims: nat,
    metric: DistanceMetric,
) -> Seq<CollectionModel> {
    if has_collection(s, name) {
        s
    } else {
        s.push(CollectionModel { name, dims, metric, points: Seq::empty() })
    }
}

impl VectorIndex {
    /// An empty store.
    pub fn new() -> (ix: VectorIndex)
        ensures
            ix@ == Seq::<CollectionModel>::empty(),
            index_wf(ix@),
    {
        let ix = VectorIndex { collections: Vec::new() };
        proof {
            assert(ix@ =~= Seq::<CollectionModel>::empty());
        }
        ix
    }

    fn find_collection(&self, name: &String) -> (r: Option<usize>)
        ensures
            match r {
                Some(i) => i < self@.len() && self@[i as int].name == name@,
                None => !has_collection(self@, name@),
            },
    {
        let mut i: usize = 0;
        while i < self.collections.len()
            invariant
                i <= self.collections@.len(),
                self@.len() == self.collections@.len(),
                forall|j: int| 0 <= j < i ==> (#[trigger] self@[j]).name != name@,
            decreases self.collections@.len() - i,
        {
            if self.collections[i].name == *name {
                proof {
                    assert(self@[i as int] == self.collections@[i as int]@);
                }
                return Some(i);
            }
            proof {
                assert(self@[i as int] == self.collections@[i as int]@);
            }
            i = i + 1;
        }
        None
    }

    /// Whether the named collection exists.
    pub fn collection_exists(&self, name: &String) -> (r: bool)
        ensures
            r == has_collection(self@, name@),
    {
        match self.find_collection(name) {
            Some(_) => true,
            None => false,
        }
    }

    /// Check-then-create provisioning: create the collection with the
    /// given dimensionality and metric only if the name is absent; an
    /// existing collection is left exactly as it was, with no error.
    pub fn ensure_collection(&mut self, name: &String, dims: usize, metric: DistanceMetric)
        requires
            index_wf(old(self)@),
        ensures
            final(self)@ == spec_ensure(old(self)@, name@, dims as nat, metric),
            index_wf(final(self)@),
            has_collection(final(self)@, name@),
    {
        match self.find_collection(name) {
            Some(_) => {},
            None => {
                let ghost olds = self@;
                let c = Collection {
                    name: name.clone(),
                    dims,
                    metric,
                    points: Vec::new(),
                };
                proof {
                    assert(c@.points =~= Seq::<PointModel>::empty());
                }
                self.collections.push(c);
                proof {
                    assert(self@ =~= olds.push(
                        CollectionModel {
                            name: name@,
                            dims: dims as nat,
                            metric,
                            points: Seq::empty(),
                        },
                    ));
                    let news = self@;
                    assert forall|i: int, j: int| 0 <= i < j < news.len() implies (
                    #[trigger] news[i]).name != (#[trigger] news[j]).name by {
                        if j == news.len() - 1 {
                            assert(news[i] == olds[i]);
                        }
                    }
                    assert(news[news.len() - 1].name == name@);
                }
            },
        }
    }
}

/// Insertion step: append the points to the named collection, leaving
/// every other collection unchanged.
pub open spec fn spec_insert(
    s: Seq<CollectionModel>,
    name: Seq<char>,
    pts: Seq<PointModel>,
) -> Seq<CollectionModel> {
    let i = named_idx(s, name);
    s.update(
        i,
        CollectionModel {
            name: s[i].name,
            dims: s[i].dims,
            metric: s[i].metric,
            points: s[i].points + pts,
        },
    )
}

/// With unique names, the position found for a name is the only one.
proof fn lemma_named_idx_unique(s: Seq<CollectionModel>, name: Seq<char>, i: int)
    requires
        index_wf(s),
        0 <= i < s.len(),
        s[i].name == name,
    ensures
        named_idx(s, name) == i,
        named(s, name) == s[i],
{
    assert(has_collection(s, name));
    let j = named_idx(s, name);
    assert(0 <= j < s.len() && s[j].name == name);
    if i < j {
        assert(s[i].name != s[j].name);
    } else if j < i {
        assert(s[j].name != s[i].name);
    }
}

impl VectorIndex {
    /// Insert a batch of embedded documents into the named collection.
    /// All or nothing: if the collection is missing, or any vector's
    /// length differs from the collection's dimensionality, the whole
    /// batch is rejected and the store is left unchanged; otherwise every
    /// document is appended in order and the inserted count returned.
    #[verifier::loop_isolation(false)]
    pub fn insert(&mut self, name: &String, batch: &Vec<EmbeddedDocument>) -> (r: Result<
        usize,
        IndexError,
    >)
        requires
            index_wf(old(self)@),
        ensures
            index_wf(final(self)@),
            match r {
                Ok(n) => {
                    &&& has_collection(old(self)@, name@)
                    &&& forall|k: int|
                        0 <= k < batch@.len() ==> (#[trigger] batch@[k])@.vector.len() == named(
                            old(self)@,
                            name@,
                        ).dims
                    &&& n == batch@.len()
                    &&& final(self)@ == spec_insert(
                        old(self)@,
                        name@,
                        batch@.map_values(|p: EmbeddedDocument| p@),
                    )
                },
                Err(IndexError::CollectionMissing) => {
                    &&& !has_collection(old(self)@, name@)
                    &&& final(self)@ == old(self)@
                },
                Err(IndexError::DimensionMismatch) => {
                    &&& has_collection(old(self)@, name@)
                    &&& exists|k: int|
                        0 <= k < batch@.len() && (#[trigger] batch@[k])@.vector.len() != named(
                            old(self)@,
                            name@,
                        ).dims
                    &&& final(self)@ == old(self)@
                },
            },
    {
        let ghost olds = self@;
        match self.find_collection(name) {
            None => Err(IndexError::CollectionMissing),
            Some(ci) => {
                proof {
                    lemma_named_idx_unique(olds, name@, ci as int);
                }
                let dims = self.collections[ci].dims;
                proof {
                    assert(olds[ci as int] == self.collections@[ci as int]@);
                }
                proof {
                    assert(has_collection(olds, name@));
                    assert(named(olds, name@) == olds[ci as int]);
                }
                let mut k: usize = 0;
                while k < batch.len()
                    invariant
                        k <= batch@.len(),
                        forall|j: int|
                            0 <= j < k ==> (#[trigger] batch@[j])@.vector.len() == dims as nat,
                    decreases batch@.len() - k,
                {
                    if batch[k].vector.len() != dims {
                        proof {
                            assert((batch@[k as int])@.vector.len() != named(olds, name@).dims);
                        }
                        return Err(IndexError::DimensionMismatch);
                    }
                    k = k + 1;
                }
                let ghost oldcols = self.collections@;
                let mut c = self.collections.remove(ci);
                let ghost oldpts = c.points@.map_values(|p: EmbeddedDocument| p@);
                let ghost batchpts = batch@.map_values(|p: EmbeddedDocument| p@);
                proof {
                    assert(oldpts + batchpts.take(0) =~= oldpts);
                }
                let mut k: usize = 0;
                while k < batch.len()
                    invariant
                        k <= batch@.len(),
                        c.name == oldcols[ci as int].name,
                        c.dims == oldcols[ci as int].dims,
                        c.metric == oldcols[ci as int].metric,
                        c.points@.map_values(|p: EmbeddedDocument| p@) == oldpts + batchpts.take(
                            k as int,
                        ),
                    decreases batch@.len() - k,
                {
                    let p = batch[k].clone();
                    proof {
                        assert(p@ == batchpts[k as int]);
                    }
                    let ghost prev = c.points@;
                    c.points.push(p);
                    proof {
                        assert(c.points@ == prev.push(p));
                        assert(c.points@.map_values(|q: EmbeddedDocument| q@) =~= prev.map_values(
                            |q: EmbeddedDocument| q@,
                        ).push(p@));
                        assert((oldpts + batchpts.take(k as int)).push(p@) =~= oldpts
                            + batchpts.take(k as int + 1));
                    }
                    k = k + 1;
                }
                proof {
                    assert(batchpts.take(batchpts.len() as int) =~= batchpts);
                }
                self.collections.insert(ci, c);
                proof {
                    assert(self.collections@ =~= oldcols.update(ci as int, c));
                    assert(self@ =~= olds.update(
                        ci as int,
                        CollectionModel {
                            name: olds[ci as int].name,
                            dims: olds[ci as int].dims,
                            metric: olds[ci as int].metric,
                            points: olds[ci as int].points + batchpts,
                        },
                    ));
                    let news = self@;
                    assert forall|i: int, j: int| 0 <= i < j < news.len() implies (
                    #[trigger] news[i]).name != (#[trigger] news[j]).name by {
                        assert(news[i].name == olds[i].name);
                        assert(news[j].name == olds[j].name);
                    }
                    assert forall|i: int| 0 <= i < news.len() implies collection_wf(
                        #[trigger] news[i],
                    ) by {
                        if i == ci as int {
                            assert forall|q: int| 0 <= q < news[i].points.len() implies (
                            #[trigger] news[i].points[q]).vector.len() == news[i].dims by {
                                if q < olds[i].points.len() {
                                    assert(news[i].points[q] == olds[i].points[q]);
                                    assert(collection_wf(olds[i]));
                                } else {
                                    assert(news[i].points[q] == batchpts[q - olds[
                                        i].points.len()]);
                                }
                            }
                        } else {
                            assert(news[i] == olds[i]);
                        }
                    }
                }
                Ok(batch.len())
            },
        }
    }
}

/// A retrieved document with its similarity score.
pub struct ScoredPoint {
    pub document: Document,
    pub score: i128,
}

/// Ghost model of one retrieval result.
pub ghost struct ScoredModel {
    pub id: Seq<char>,
    pub content: Seq<char>,
    pub score: int,
}

impl View for ScoredPoint {
    type V = ScoredModel;

    open spec fn view(&self) -> ScoredModel {
        ScoredModel {
            id: self.document.id@,
            content: self.document.content@,
            score: self.score as int,
        }
    }
}

/// Similarity of two equal-length vectors: their fixed-point dot product.
pub open spec fn dot(a: Seq<int>, b: Seq<int>) -> int
    decreases a.len(),
{
    if a.len() == 0 {
        0
    } else {
        dot(a.drop_last(), b.drop_last()) + a.last() * b.last()
    }
}

/// The points of a collection scored against a query vector, in stored
/// order.
pub open spec fn scored_of(c: CollectionModel, q: Seq<int>) -> Seq<ScoredModel> {
    Seq::new(
        c.points.len(),
        |k: int|
            ScoredModel {
                id: c.points[k].id,
                content: c.points[k].content,
                score: dot(q, c.points[k].vector),
            },
    )
}

/// Every result in `a` occurs no more often than it does in `b`: the
/// results are drawn from `b`, with nothing invented.
pub open spec fn counts_within(a: Seq<ScoredModel>, b: Seq<ScoredModel>) -> bool {
    forall|x: ScoredModel| #[trigger] a.to_multiset().count(x) <= b.to_multiset().count(x)
}

/// Nothing left out of `a` beats what `a` kept: any result of `b` omitted
/// from (or occurring more often than in) `a` scores no higher than the
/// last — lowest — result of `a`.
pub open spec fn omitted_no_better(a: Seq<ScoredModel>, b: Seq<ScoredModel>) -> bool {
    forall|x: ScoredModel|
        (b.to_multiset().count(x) > (#[trigger] a.to_multiset().count(x)) && a.len() > 0)
            ==> x.score <= a[a.len() - 1].score
}

/// Every score in `a` is at least every score in `b`.
pub open spec fn all_ge(a: Seq<ScoredModel>, b: Seq<ScoredModel>) -> bool {
    forall|x: int, y: int|
        0 <= x < a.len() && 0 <= y < b.len() ==> (#[trigger] a[x]).score >= (#[trigger] b[y]).score
}

/// Scores never increase along the sequence.
pub open spec fn sorted_desc(s: Seq<ScoredModel>) -> bool {
    forall|i: int, j: int|
        0 <= i <= j < s.len() ==> (#[trigger] s[i]).score >= (#[trigger] s[j]).score
}

#[verifier::loop_isolation(false)]
fn dot_product(a: &Vec<i32>, b: &Vec<i32>) -> (r: i128)
    requires
        a@.len() == b@.len(),
    ensures
        r as int == dot(a@.map_values(|x: i32| x as int), b@.map_values(|x: i32| x as int)),
{
    let ghost av = a@.map_values(|x: i32| x as int);
    let ghost bv = b@.map_values(|x: i32| x as int);
    let mut acc: i128 = 0;
    let mut i: usize = 0;
    proof {
        assert(av.take(0) =~= Seq::<int>::empty());
    }
    while i < a.len()
        invariant
            i <= a@.len(),
            acc as int == dot(av.take(i as int), bv.take(i as int)),
            -(i as int) * 0x4000_0000_0000_0000 <= acc as int <= (i as int)
                * 0x4000_0000_0000_0000,
        decreases a@.len() - i,
    {
        let x = a[i];
        let y = b[i];
        let ghost xi = x as int;
        let ghost yi = y as int;
        proof {
            assert(-0x4000_0000_0000_0000 <= xi * yi <= 0x4000_0000_0000_0000)
                by (nonlinear_arith)
                requires
                    -0x80000000 <= xi <= 0x7fffffff,
                    -0x80000000 <= yi <= 0x7fffffff,
            ;
            assert((i as int + 1) * 0x4000_0000_0000_0000 <= 0x10000000000000000
                * 0x4000_0000_0000_0000) by (nonlinear_arith)
                requires
                    i as int + 1 <= 0x10000000000000000,
            ;
        }
        let prod: i128 = (x as i128) * (y as i128);
        acc = acc + prod;
        proof {
            assert(av.take(i as int + 1).drop_last() =~= av.take(i as int));
            assert(bv.take(i as int + 1).drop_last() =~= bv.take(i as int));
            assert(av.take(i as int + 1).last() == xi);
            assert(bv.take(i as int + 1).last() == yi);
            assert(dot(av.take(i as int + 1), bv.take(i as int + 1)) == dot(
                av.take(i as int),
                bv.take(i as int),
            ) + xi * yi);
        }
        i = i + 1;
    }
    proof {
        assert(av.take(a@.len() as int) =~= av);
        assert(bv.take(b@.len() as int) =~= bv);
    }
    acc
}

/// Sort retrieval results by score, highest first, keeping exactly the
/// same collection of results.
#[verifier::loop_isolation(false)]
fn sort_scored_desc(input: Vec<ScoredPoint>) -> (out: Vec<ScoredPoint>)
    ensures
        out@.len() == input@.len(),
        sorted_desc(out@.map_values(|s: ScoredPoint| s@)),
        out@.map_values(|s: ScoredPoint| s@).to_multiset() == input@.map_values(
            |s: ScoredPoint| s@,
        ).to_multiset(),
{
    broadcast use vstd::seq_lib::group_to_multiset_ensures;
    broadcast use vstd::multiset::group_multiset_axioms;

    let ghost orig = input@.map_values(|s: ScoredPoint| s@);
    let mut v = input;
    let mut out: Vec<ScoredPoint> = Vec::new();
    proof {
        assert(out@.map_values(|s: ScoredPoint| s@) =~= Seq::<ScoredModel>::empty());
        assert(Seq::<ScoredModel>::empty().to_multiset() =~= Multiset::<ScoredModel>::empty());
        assert(out@.map_values(|s: ScoredPoint| s@).to_multiset().add(
            v@.map_values(|s: ScoredPoint| s@).to_multiset(),
        ) =~= orig.to_multiset());
    }
    while v.len() > 0
        invariant
            out@.len() + v@.len() == orig.len(),
            sorted_desc(out@.map_values(|s: ScoredPoint| s@)),
            out@.map_values(|s: ScoredPoint| s@).to_multiset().add(
                v@.map_values(|s: ScoredPoint| s@).to_multiset(),
            ) == orig.to_multiset(),
            all_ge(out@.map_values(|s: ScoredPoint| s@), v@.map_values(|s: ScoredPoint| s@)),
        decreases v@.len(),
    {
        let ghost vm = v@.map_values(|s: ScoredPoint| s@);
        let ghost outm = out@.map_values(|s: ScoredPoint| s@);
        let mut m: usize = 0;
        let mut j: usize = 1;
        while j < v.len()
            invariant
                m < v@.len(),
                1 <= j <= v@.len(),
                v@.map_values(|s: ScoredPoint| s@) == vm,
                forall|t: int| 0 <= t < j ==> (#[trigger] vm[t]).score <= vm[m as int].score,
            decreases v@.len() - j,
        {
            if v[j].score > v[m].score {
                m = j;
            }
            j = j + 1;
        }
        let x = v.remove(m);
        let ghost prevout = out@;
        out.push(x);
        proof {
            assert(x@ == vm[m as int]);
            assert(v@.map_values(|s: ScoredPoint| s@) =~= vm.remove(m as int));
            assert(vm.remove(m as int).to_multiset() == vm.to_multiset().remove(vm[m as int]));
            assert(out@ == prevout.push(x));
            assert(out@.map_values(|s: ScoredPoint| s@) =~= outm.push(x@));
            assert(outm.push(x@).to_multiset() == outm.to_multiset().insert(x@));
            assert(vm.contains(vm[m as int]));
            assert(vm.to_multiset().count(vm[m as int]) > 0);
            assert(outm.to_multiset().insert(x@).add(vm.to_multiset().remove(x@))
                =~= outm.to_multiset().add(vm.to_multiset()));
            let newout = out@.map_values(|s: ScoredPoint| s@);
            let newv = v@.map_values(|s: ScoredPoint| s@);
            assert forall|p: int, q: int| 0 <= p <= q < newout.len() implies (
            #[trigger] newout[p]).score >= (#[trigger] newout[q]).score by {
                if q < newout.len() - 1 {
                    assert(newout[p] == outm[p] && newout[q] == outm[q]);
                } else if p < newout.len() - 1 {
                    assert(newout[p] == outm[p]);
                    assert(newout[q] == vm[m as int]);
                }
            }
            assert forall|p: int, q: int| 0 <= p < newout.len() && 0 <= q < newv.len() implies (
            #[trigger] newout[p]).score >= (#[trigger] newv[q]).score by {
                assert(newv[q] == vm.remove(m as int)[q]);
                if q < m as int {
                    assert(vm.remove(m as int)[q] == vm[q]);
                } else {
                    assert(vm.remove(m as int)[q] == vm[q + 1]);
                }
                if p < newout.len() - 1 {
                    assert(newout[p] == outm[p]);
                } else {
                    assert(newout[p] == vm[m as int]);
                }
            }
            assert(all_ge(newout, newv));
        }
    }
    out
}

impl VectorIndex {
    /// Retrieve the `top_k` stored points of the named collection most
    /// similar to the query vector. The result holds `min(top_k, stored)`
    /// points drawn from the collection's scored points, scores are
    /// non-increasing across it, and no omitted point scores higher than
    /// any returned one. The query vector must match the collection's
    /// dimensionality, or the query is rejected.
    #[verifier::loop_isolation(false)]
    pub fn query(&self, name: &String, query_vec: &Vec<i32>, top_k: usize) -> (r: Result<
        Vec<ScoredPoint>,
        IndexError,
    >)
        requires
            index_wf(self@),
        ensures
            match r {
                Ok(res) => {
                    let scored = scored_of(
                        named(self@, name@),
                        query_vec@.map_values(|x: i32| x as int),
                    );
                    let resm = res@.map_values(|s: ScoredPoint| s@);
                    &&& has_collection(self@, name@)
                    &&& query_vec@.len() == named(self@, name@).dims
                    &&& resm.len() == (if (top_k as nat) <= scored.len() {
                        top_k as nat
                    } else {
                        scored.len()
                    })
                    &&& sorted_desc(resm)
                    &&& counts_within(resm, scored)
                    &&& omitted_no_better(resm, scored)
                },
                Err(IndexError::CollectionMissing) => !has_collection(self@, name@),
                Err(IndexError::DimensionMismatch) => {
                    &&& has_collection(self@, name@)
                    &&& query_vec@.len() != named(self@, name@).dims
                },
            },
    {
        broadcast use vstd::seq_lib::group_to_multiset_ensures;
        broadcast use vstd::multiset::group_multiset_axioms;

        let ghost qv = query_vec@.map_values(|x: i32| x as int);
        match self.find_collection(name) {
            None => Err(IndexError::CollectionMissing),
            Some(ci) => {
                proof {
                    lemma_named_idx_unique(self@, name@, ci as int);
                    assert(self@[ci as int] == self.collections@[ci as int]@);
                }
                let ghost c = self@[ci as int];
                let dims = self.collections[ci].dims;
                if query_vec.len() != dims {
                    return Err(IndexError::DimensionMismatch);
                }
                let ghost scored = scored_of(c, qv);
                let npts = self.collections[ci].points.len();
                let mut scored_v: Vec<ScoredPoint> = Vec::new();
                proof {
                    assert(scored_v@.map_values(|s: ScoredPoint| s@) =~= scored.take(0));
                }
                let mut k: usize = 0;
                while k < npts
                    invariant
                        k <= npts,
                        scored_v@.map_values(|s: ScoredPoint| s@) == scored.take(k as int),
                    decreases npts - k,
                {
                    let p = &self.collections[ci].points[k];
                    proof {
                        assert(collection_wf(c));
                        assert(c.points[k as int] == p@);
                        assert(c.points[k as int].vector.len() == c.dims);
                    }
                    let s = dot_product(query_vec, &p.vector);
                    let sp = ScoredPoint { document: p.document.clone(), score: s };
                    proof {
                        assert(sp@ == scored[k as int]);
                    }
                    let ghost prevsv = scored_v@;
                    scored_v.push(sp);
                    proof {
                        assert(scored_v@.map_values(|s2: ScoredPoint| s2@) =~= prevsv.map_values(
                            |s2: ScoredPoint| s2@,
                        ).push(sp@));
                        assert(prevsv.map_values(|s2: ScoredPoint| s2@).push(sp@) =~= scored.take(
                            k as int + 1,
                        ));
                    }
                    k = k + 1;
                }
                proof {
                    assert(scored.take(npts as int) =~= scored);
                }
                let mut out = sort_scored_desc(scored_v);
                proof {
                    let outm = out@.map_values(|s: ScoredPoint| s@);
                    assert(counts_within(outm, scored));
                    assert forall|x: ScoredModel|
                        (scored.to_multiset().count(x) > (#[trigger] outm.to_multiset().count(x))
                            && outm.len() > 0) implies x.score <= outm[outm.len() - 1].score by {
                        assert(outm.to_multiset().count(x) == scored.to_multiset().count(x));
                    }
                    assert(omitted_no_better(outm, scored));
                }
                while out.len() > top_k
                    invariant
                        out@.len() <= scored.len(),
                        out@.len() >= (if (top_k as nat) <= scored.len() {
                            top_k as nat
                        } else {
                            scored.len()
                        }),
                        sorted_desc(out@.map_values(|s: ScoredPoint| s@)),
                        counts_within(out@.map_values(|s: ScoredPoint| s@), scored),
                        omitted_no_better(out@.map_values(|s: ScoredPoint| s@), scored),
                    decreases out@.len(),
                {
                    let ghost prevm = out@.map_values(|s: ScoredPoint| s@);
                    let popped = out.pop();
                    proof {
                        let newm = out@.map_values(|s: ScoredPoint| s@);
                        let y = prevm[prevm.len() - 1];
                        assert(newm =~= prevm.remove(prevm.len() - 1));
                        assert(newm.to_multiset() == prevm.to_multiset().remove(y));
                        assert forall|x: ScoredModel| #[trigger]
                            newm.to_multiset().count(x) <= scored.to_multiset().count(x) by {
                            assert(prevm.to_multiset().count(x) <= scored.to_multiset().count(x));
                        }
                        assert forall|x: ScoredModel|
                            (scored.to_multiset().count(x) > (#[trigger] newm.to_multiset().count(
                                x,
                            )) && newm.len() > 0) implies x.score <= newm[newm.len() - 1].score by {
                            assert(prevm[prevm.len() - 2] == newm[newm.len() - 1]);
                            assert(y.score <= newm[newm.len() - 1].score);
                            if x == y {
                                assert(x.score <= newm[newm.len() - 1].score);
                            } else {
                                assert(newm.to_multiset().count(x) == prevm.to_multiset().count(x));
                                assert(x.score <= prevm[prevm.len() - 1].score);
                            }
                        }
                        assert(omitted_no_better(newm, scored));
                        assert forall|p2: int, q2: int| 0 <= p2 <= q2 < newm.len() implies (
                        #[trigger] newm[p2]).score >= (#[trigger] newm[q2]).score by {
                            assert(newm[p2] == prevm[p2] && newm[q2] == prevm[q2]);
                        }
                    }
                }
                Ok(out)
            },
        }
    }
}

/// How many collections in the store carry this name.
pub open spec fn count_named(s: Seq<CollectionModel>, name: Seq<char>) -> int
    decreases s.len(),
{
    if s.len() == 0 {
        0
    } else {
        count_named(s.drop_last(), name) + if s.last().name == name {
            1int
        } else {
            0int
        }
    }
}

/// With unique names, a name occurs once if present and never twice.
proof fn lemma_count_named(s: Seq<CollectionModel>, name: Seq<char>)
    requires
        index_wf(s),
    ensures
        count_named(s, name) == if has_collection(s, name) {
            1int
        } else {
            0int
        },
    decreases s.len(),
{
    if s.len() > 0 {
        let prefix = s.drop_last();
        assert(index_wf(prefix)) by {
            assert(forall|i: int| 0 <= i < prefix.len() ==> prefix[i] == s[i]);
        }
        lemma_count_named(prefix, name);
        if s.last().name == name {
            assert(!has_collection(prefix, name)) by {
                if has_collection(prefix, name) {
                    let i = choose|i: int|
                        0 <= i < prefix.len() && (#[trigger] prefix[i]).name == name;
                    assert(s[i].name != s[s.len() - 1].name);
                }
            }
            assert(has_collection(s, name));
        } else {
            assert(has_collection(s, name) == has_collection(prefix, name)) by {
                if has_collection(s, name) {
                    let i = choose|i: int| 0 <= i < s.len() && (#[trigger] s[i]).name == name;
                    assert(i < s.len() - 1);
                    assert(prefix[i].name == name);
                }
                if has_collection(prefix, name) {
                    let i = choose|i: int|
                        0 <= i < prefix.len() && (#[trigger] prefix[i]).name == name;
                    assert(s[i].name == name);
                }
            }
        }
    }
}

/// Idempotent provisioning: a second `ensure_collection` with the same
/// arguments changes nothing and raises no error, and afterwards exactly
/// one collection with the name exists.
pub proof fn lemma_ensure_idempotent(
    s: Seq<CollectionModel>,
    name: Seq<char>,
    dims: nat,
    metric: DistanceMetric,
)
    requires
        index_wf(s),
    ensures
        spec_ensure(spec_ensure(s, name, dims, metric), name, dims, metric) == spec_ensure(
            s,
            name,
            dims,
            metric,
        ),
        has_collection(spec_ensure(s, name, dims, metric), name),
        count_named(spec_ensure(s, name, dims, metric), name) == 1,
{
    let s1 = spec_ensure(s, name, dims, metric);
    if has_collection(s, name) {
        assert(s1 == s);
        lemma_count_named(s, name);
    } else {
        assert(s1[s.len() as int].name == name);
        assert(has_collection(s1, name));
        assert(index_wf(s1)) by {
            assert(forall|i: int| 0 <= i < s.len() ==> s1[i] == s[i]);
            assert forall|i: int, j: int| 0 <= i < j < s1.len() implies (#[trigger] s1[i]).name
                != (#[trigger] s1[j]).name by {
                if j == s1.len() - 1 {
                    assert(s[i].name != name);
                }
            }
            assert(collection_wf(s1[s.len() as int]));
        }
        lemma_count_named(s1, name);
    }
}

} // verus!
