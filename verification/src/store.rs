//! The store: every vector in two views, and the index over them.

use crate::math::{
    assign, distances_among, evolves, gather, group, has_dimension, is_assignment, is_nearest,
    is_sample, is_table, kmeans, lemma_members, members, nearest_vector_index, rows,
};
use crate::metric::{average_of, measure_of, takes_columns, takes_pairs, Measure};
use crate::order::{is_nan, least, least_of, least_or_first, less};
use crate::vector::{reduced, DenseVector, Distances, QuantizedVector, REDUCED_DIM};
use std::collections::HashMap;
use vstd::prelude::*;

verus! {

/// A store of vectors of one dimension. A vector's handle is its position,
/// given when it is added and never given again.
#[derive(Debug)]
pub struct VectorStore {
    /// The vectors at full precision, by handle.
    pub dense: Vec<DenseVector>,
    /// The reduced view of each vector, by handle.
    pub quantized: Vec<QuantizedVector>,
    /// The handles given to each cluster, once an index is built.
    pub ivf_index: Option<HashMap<usize, Vec<usize>>>,
    /// The centroid of each cluster, once an index is built.
    pub centroids: Option<Vec<DenseVector>>,
}

/// The coordinates of each of `qs`.
pub open spec fn reduced_rows(qs: Seq<QuantizedVector>) -> Seq<Seq<u32>> {
    Seq::new(qs.len(), |i: int| qs[i]@)
}

/// Copies each vector of `vectors`.
fn clone_dense(vectors: &Vec<DenseVector>) -> (copy: Vec<DenseVector>)
    ensures
        copy.len() == vectors.len(),
        rows(copy@) == rows(vectors@),
{
    let mut copy: Vec<DenseVector> = Vec::new();
    let mut i: usize = 0;
    while i < vectors.len()
        invariant
            i <= vectors.len(),
            copy.len() == i,
            forall|p: int| 0 <= p < i ==> (#[trigger] copy[p])@ == vectors[p]@,
        decreases vectors.len() - i,
    {
        copy.push(vectors[i].clone());
        i += 1;
    }
    proof {
        assert(rows(copy@) =~= rows(vectors@));
    }
    copy
}

/// Copies each reduced view of `views`.
fn clone_reduced(views: &Vec<QuantizedVector>) -> (copy: Vec<QuantizedVector>)
    ensures
        copy.len() == views.len(),
        reduced_rows(copy@) == reduced_rows(views@),
{
    let mut copy: Vec<QuantizedVector> = Vec::new();
    let mut i: usize = 0;
    while i < views.len()
        invariant
            i <= views.len(),
            copy.len() == i,
            forall|p: int| 0 <= p < i ==> (#[trigger] copy[p])@ == views[p]@,
        decreases views.len() - i,
    {
        copy.push(views[i].clone());
        i += 1;
    }
    proof {
        assert(reduced_rows(copy@) =~= reduced_rows(views@));
    }
    copy
}

impl Clone for VectorStore {
    /// A store with the same vectors under the same handles, the same
    /// centroids and the same buckets.
    fn clone(&self) -> (copy: Self)
        ensures
            rows(copy.dense@) == rows(self.dense@),
            reduced_rows(copy.quantized@) == reduced_rows(self.quantized@),
            match (self.centroids, copy.centroids) {
                (Some(cs), Some(copied)) => rows(copied@) == rows(cs@),
                (None, None) => true,
                _ => false,
            },
            match (self.ivf_index, copy.ivf_index) {
                (Some(index), Some(copied)) => copied@ == index@,
                (None, None) => true,
                _ => false,
            },
            self.wf() ==> copy.wf(),
    {
        let dense = clone_dense(&self.dense);
        let quantized = clone_reduced(&self.quantized);
        let centroids = match &self.centroids {
            Some(cs) => Some(clone_dense(cs)),
            None => None,
        };
        let ivf_index = match &self.ivf_index {
            Some(index) => Some(index.clone()),
            None => None,
        };
        let copy = VectorStore { dense, quantized, ivf_index, centroids };
        proof {
            if self.wf() {
                assert forall|i: int|
                    0 <= i < copy.dense.len() implies (#[trigger] copy.quantized[i])@ == reduced(
                    copy.dense[i]@,
                ) by {
                    assert(rows(copy.dense@)[i] == rows(self.dense@)[i]);
                    assert(reduced_rows(copy.quantized@)[i] == reduced_rows(self.quantized@)[i]);
                }
                if self.dense.len() > 0 {
                    assert(rows(copy.dense@)[0] == rows(self.dense@)[0]);
                }
                assert(copy.dim() == self.dim());
                assert(copy.views_agree());
                assert(has_dimension(rows(copy.dense@), copy.dim()));
                assert(copy.index_fits());
            }
        }
        copy
    }
}

impl VectorStore {
    /// The dimension of the store: that of its first vector, 0 while it has
    /// none.
    pub open spec fn dim(&self) -> nat {
        if self.dense.len() == 0 {
            0
        } else {
            self.dense[0]@.len()
        }
    }

    /// Whether the two views agree: one reduced view for each vector, which
    /// holds its leading coordinates.
    pub open spec fn views_agree(&self) -> bool {
        &&& self.quantized.len() == self.dense.len()
        &&& forall|i: int|
            0 <= i < self.dense.len() ==> (#[trigger] self.quantized[i])@ == reduced(
                self.dense[i]@,
            )
    }

    /// Whether the index, where there is one, fits the store: the store is
    /// not empty, there is a centroid, every centroid has the store's
    /// dimension, and every handle in a bucket names a stored vector.
    pub open spec fn index_fits(&self) -> bool {
        &&& match self.centroids {
            Some(cs) => {
                &&& self.dense.len() > 0
                &&& cs.len() > 0
                &&& has_dimension(rows(cs@), self.dim())
            },
            None => true,
        }
        &&& match self.ivf_index {
            Some(index) => forall|c: usize, p: int|
                index@.contains_key(c) && 0 <= p < index@[c]@.len() ==> (#[trigger] index@[c]@[p])
                    < self.dense.len(),
            None => true,
        }
    }

    /// The store's invariant: the views agree, all vectors have one
    /// dimension, and the index fits.
    pub open spec fn wf(&self) -> bool {
        &&& self.views_agree()
        &&& has_dimension(rows(self.dense@), self.dim())
        &&& self.index_fits()
    }

    /// An empty store without an index.
    pub fn new() -> (store: Self)
        ensures
            store.wf(),
            store.dense@.len() == 0,
            store.quantized@.len() == 0,
            store.ivf_index is None,
            store.centroids is None,
    {
        VectorStore {
            quantized: Vec::new(),
            dense: Vec::new(),
            ivf_index: None,
            centroids: None,
        }
    }

    /// Looks for the stored vector nearest to `query_vec` in the way of
    /// `strategy`. The store only hands the question on.
    pub fn search<F: Fn(&Vec<u32>, &Vec<u32>) -> u32, S: SearchStrategy>(
        &self,
        query_vec: &DenseVector,
        strategy: S,
        distance: &F,
    ) -> (found: Option<(usize, u32)>)
        requires
            strategy.admits(self, query_vec@),
            takes_pairs(distance),
        ensures
            strategy.finds(self, query_vec@, measure_of(distance), found),
    {
        strategy.search(self, query_vec, distance)
    }

    /// Builds the index anew: trains `num_clusters` centroids on the full
    /// vectors by `max_iters` passes, then gives every handle to the bucket of
    /// its nearest centroid. What index there was is replaced. Over more
    /// than `u32::MAX` vectors, `num_clusters` must be fewer than all.
    pub fn build_index<F: Fn(&Vec<u32>, &Vec<u32>) -> u32, M: Fn(&Vec<u32>) -> u32>(
        &mut self,
        num_clusters: usize,
        max_iters: usize,
        distance: &F,
        average: &M,
    )
        requires
            old(self).wf(),
            1 <= num_clusters <= old(self).dense.len(),
            old(self).dense.len() <= u32::MAX || num_clusters < old(self).dense.len(),
            takes_pairs(distance),
            takes_columns(average),
        ensures
            final(self).wf(),
            final(self).dense == old(self).dense,
            final(self).quantized == old(self).quantized,
            final(self).centroids is Some,
            final(self).ivf_index is Some,
            final(self).centroids->0.len() == num_clusters,
            exists|start: Seq<Seq<u32>>| #[trigger]
                is_sample(rows(final(self).dense@), start, num_clusters as nat) && evolves(
                    measure_of(distance),
                    average_of(average),
                    rows(final(self).dense@),
                    start,
                    rows(final(self).centroids->0@),
                    max_iters as nat,
                ),
            exists|assignment: Seq<usize>| #[trigger]
                is_assignment(
                    measure_of(distance),
                    rows(final(self).dense@),
                    rows(final(self).centroids->0@),
                    assignment,
                ) && is_index(final(self).ivf_index->0@, assignment, num_clusters as nat),
            parts_handles(
                final(self).ivf_index->0@,
                num_clusters as nat,
                final(self).dense.len() as nat,
            ),
    {
        proof {
            assert(rows(self.dense@)[0] == self.dense[0]@);
        }
        let centroids = kmeans(&self.dense, num_clusters, max_iters, distance, average);
        proof {
            assert(rows(centroids@)[0].len() == self.dim());
            assert(rows(centroids@)[0] == centroids[0]@);
        }
        let assignment = assign(&self.dense, &centroids, distance);
        let mut buckets = group(&assignment, num_clusters);
        let ghost grouped = buckets@;
        let mut index: HashMap<usize, Vec<usize>> = HashMap::new();
        let mut c: usize = num_clusters;
        while c > 0
            invariant
                c <= num_clusters,
                buckets@ == grouped.take(c as int),
                grouped.len() == num_clusters,
                forall|b: usize| index@.contains_key(b) <==> c <= b < num_clusters,
                forall|b: usize|
                    c <= b < num_clusters ==> #[trigger] index@[b] == grouped[b as int],
            decreases c,
        {
            c -= 1;
            let bucket = buckets.pop().unwrap();
            index.insert(c, bucket);
            proof {
                assert(buckets@ =~= grouped.take(c as int));
            }
        }
        proof {
            assert(is_index(index@, assignment@, num_clusters as nat));
            lemma_index_parts_handles(index@, assignment@, num_clusters as nat);
        }
        self.centroids = Some(centroids);
        self.ivf_index = Some(index);
    }

    /// Adds a vector under the next handle, in both views. The index is left
    /// as it is: it does not know the new vector until it is built again.
    /// Where the two views agreed they still do, and where the store met its
    /// invariant it still does.
    pub fn add(&mut self, full_vector: DenseVector)
        requires
            old(self).dense.len() > 0 ==> full_vector@.len() == old(self).dim(),
        ensures
            final(self).dense@ == old(self).dense@.push(full_vector),
            final(self).quantized@.len() == old(self).quantized@.len() + 1,
            final(self).quantized@.last()@ == reduced(full_vector@),
            forall|i: int|
                0 <= i < old(self).quantized@.len() ==> final(self).quantized@[i] == old(
                    self,
                ).quantized@[i],
            final(self).ivf_index == old(self).ivf_index,
            final(self).centroids == old(self).centroids,
            old(self).views_agree() ==> final(self).views_agree(),
            old(self).wf() ==> final(self).wf(),
    {
        let q_view = full_vector.quantize();
        self.quantized.push(q_view);
        self.dense.push(full_vector);
        proof {
            assert(self.dim() == full_vector@.len());
            if old(self).views_agree() {
                assert forall|i: int|
                    0 <= i < self.dense.len() implies (#[trigger] self.quantized[i])@ == reduced(
                    self.dense[i]@,
                ) by {
                    if i < old(self).dense.len() {
                        assert(self.quantized[i] == old(self).quantized[i]);
                    }
                }
            }
            if old(self).wf() {
                assert forall|i: int| 0 <= i < self.dense.len() implies (#[trigger] rows(
                    self.dense@,
                )[i]).len() == self.dim() by {
                    if i < old(self).dense.len() {
                        assert(rows(old(self).dense@)[i].len() == old(self).dim());
                    }
                }
                assert(self.index_fits());
            }
        }
    }
}

/// Whether `index` holds exactly the clusters `0..k`, and for each the
/// handles that `assignment` gives it, in rising order.
pub open spec fn is_index(
    index: Map<usize, Vec<usize>>,
    assignment: Seq<usize>,
    k: nat,
) -> bool {
    &&& forall|c: usize| index.contains_key(c) <==> c < k
    &&& forall|c: usize| c < k ==> (#[trigger] index[c])@ == members(assignment, c)
}

/// Whether one of the buckets `0..k` of `index` holds the handle `h`.
pub open spec fn in_some_bucket(index: Map<usize, Vec<usize>>, k: nat, h: usize) -> bool {
    exists|c: usize| c < k && (#[trigger] index[c])@.contains(h)
}

/// Whether the buckets `0..k` of `index` part the handles `0..n`: every
/// handle stands in a bucket, and no handle stands at two places.
pub open spec fn parts_handles(index: Map<usize, Vec<usize>>, k: nat, n: nat) -> bool {
    &&& forall|c: usize| index.contains_key(c) <==> c < k
    &&& forall|h: usize| h < n ==> #[trigger] in_some_bucket(index, k, h)
    &&& forall|c: usize, p: int|
        c < k && 0 <= p < index[c]@.len() ==> (#[trigger] index[c]@[p]) < n
    &&& forall|c: usize, p: int, d: usize, q: int|
        c < k && d < k && 0 <= p < index[c]@.len() && 0 <= q < index[d]@.len()
            && #[trigger] index[c]@[p] == #[trigger] index[d]@[q] ==> c == d && p == q
}

/// Buckets that hold what an assignment into `k` clusters gives them part the
/// handles: each handle stands in exactly one bucket, once.
pub proof fn lemma_index_parts_handles(
    index: Map<usize, Vec<usize>>,
    assignment: Seq<usize>,
    k: nat,
)
    requires
        is_index(index, assignment, k),
        assignment.len() <= usize::MAX,
        forall|h: int| 0 <= h < assignment.len() ==> #[trigger] assignment[h] < k,
    ensures
        parts_handles(index, k, assignment.len()),
{
    assert forall|h: usize| h < assignment.len() implies #[trigger] in_some_bucket(
        index,
        k,
        h,
    ) by {
        let c = assignment[h as int];
        lemma_members(assignment, c);
        assert(index[c]@.contains(h));
    }
    assert forall|c: usize, p: int|
        c < k && 0 <= p < index[c]@.len() implies (#[trigger] index[c]@[p]) < assignment.len() by {
        lemma_members(assignment, c);
    }
    assert forall|c: usize, p: int, d: usize, q: int|
        c < k && d < k && 0 <= p < index[c]@.len() && 0 <= q < index[d]@.len()
            && #[trigger] index[c]@[p] == #[trigger] index[d]@[q] implies c == d && p
        == q by {
        lemma_members(assignment, c);
        lemma_members(assignment, d);
        let b = members(assignment, c);
        if p < q {
            assert(b[p] < b[q]);
        } else if q < p {
            assert(b[q] < b[p]);
        }
    }
}

/// A way to look for the stored vector nearest to a query.
pub trait SearchStrategy {
    /// Whether this strategy takes the question `query` on `store`. Unless a
    /// strategy asks for less, the store must meet its invariant and, where it
    /// holds a vector, the query must have its dimension.
    open spec fn admits(&self, store: &VectorStore, query: Seq<u32>) -> bool {
        store.wf() && (store.dense.len() > 0 ==> query.len() == store.dim())
    }

    /// Whether `found` is an answer of this strategy for `query` on `store`,
    /// with distances as `measure` relates them. A strategy that does not say
    /// leaves every answer open.
    open spec fn finds(
        &self,
        store: &VectorStore,
        query: Seq<u32>,
        measure: Measure,
        found: Option<(usize, u32)>,
    ) -> bool {
        true
    }

    /// Looks for the stored vector nearest to `query_vec`: its handle and its
    /// distance, or nothing where the strategy has no answer.
    fn search<F: Fn(&Vec<u32>, &Vec<u32>) -> u32>(
        &self,
        store: &VectorStore,
        query_vec: &DenseVector,
        distance: &F,
    ) -> (found: Option<(usize, u32)>)
        requires
            self.admits(store, query_vec@),
            takes_pairs(distance),
        ensures
            self.finds(store, query_vec@, measure_of(distance), found),
    ;
}

/// Looks at the bucket of the centroid nearest to the query, and nowhere
/// else.
pub struct IVFSearch;

/// Ranks every stored vector by its reduced view, then measures the winner
/// at full precision.
pub struct BruteForceSearch;

/// Measures the distance to `query` from each reduced view.
pub fn reduced_distances<F: Fn(&Vec<u32>, &Vec<u32>) -> u32>(
    views: &Vec<QuantizedVector>,
    query: &QuantizedVector,
    distance: &F,
) -> (ds: Vec<u32>)
    requires
        takes_pairs(distance),
        forall|i: int| 0 <= i < views.len() ==> (#[trigger] views[i])@.len() == query@.len(),
    ensures
        is_table(measure_of(distance), reduced_rows(views@), query@, ds@),
{
    let mut ds: Vec<u32> = Vec::new();
    let mut i: usize = 0;
    while i < views.len()
        invariant
            takes_pairs(distance),
            forall|i: int| 0 <= i < views.len() ==> (#[trigger] views[i])@.len() == query@.len(),
            i <= views.len(),
            ds.len() == i,
            forall|p: int|
                0 <= p < i ==> measure_of(distance)(
                    #[trigger] reduced_rows(views@)[p],
                    query@,
                    ds@[p],
                ),
        decreases views.len() - i,
    {
        let d: u32 = views[i].distance(query, distance);
        ds.push(d);
        i += 1;
    }
    ds
}

impl SearchStrategy for BruteForceSearch {
    /// An empty store takes any question. Another store must meet its
    /// invariant, and the query must have its dimension.
    open spec fn admits(&self, store: &VectorStore, query: Seq<u32>) -> bool {
        store.dense.len() > 0 ==> store.wf() && query.len() == store.dim()
    }

    /// On an empty store there is no answer. Else the answer is the handle
    /// whose reduced view has the least distance to the reduced query, the
    /// first such handle, or handle 0 where no such distance is a number;
    /// with it comes a distance from the full vector under that handle to
    /// the query.
    open spec fn finds(
        &self,
        store: &VectorStore,
        query: Seq<u32>,
        measure: Measure,
        found: Option<(usize, u32)>,
    ) -> bool {
        if store.dense.len() == 0 {
            found is None
        } else {
            match found {
                Some((handle, exact)) => {
                    &&& handle < store.dense.len()
                    &&& exists|ds: Seq<u32>| #[trigger]
                        is_table(measure, reduced_rows(store.quantized@), reduced(query), ds)
                            && least_or_first(ds, handle as int)
                    &&& measure(store.dense[handle as int]@, query, exact)
                },
                None => false,
            }
        }
    }

    fn search<F: Fn(&Vec<u32>, &Vec<u32>) -> u32>(
        &self,
        store: &VectorStore,
        query_vec: &DenseVector,
        distance: &F,
    ) -> (found: Option<(usize, u32)>) {
        if store.dense.len() == 0 {
            return None;
        }
        let quant_query = query_vec.quantize();
        proof {
            assert forall|i: int|
                0 <= i < store.quantized.len() implies (#[trigger] store.quantized[i])@.len()
                == quant_query@.len() by {
                assert(rows(store.dense@)[i].len() == store.dim());
            }
        }
        let ds = reduced_distances(&store.quantized, &quant_query, distance);
        let best_index: usize = match least(&ds) {
            Some(i) => i,
            None => 0,
        };
        proof {
            assert(rows(store.dense@)[best_index as int].len() == store.dim());
        }
        let precise_distance: u32 = store.dense[best_index].distance(query_vec, distance);
        Some((best_index, precise_distance))
    }
}

impl SearchStrategy for IVFSearch {
    /// A store without centroids or without buckets takes any question.
    /// Another store must meet its invariant, and the query must have its
    /// dimension.
    open spec fn admits(&self, store: &VectorStore, query: Seq<u32>) -> bool {
        store.centroids is Some && store.ivf_index is Some ==> store.wf() && query.len()
            == store.dim()
    }

    /// Without centroids or without buckets there is no answer. Else some
    /// centroid is nearest to the query; without a bucket for it there is no
    /// answer; else the answer is the vector of that bucket with the least
    /// distance to the query, the first such in the bucket, with its handle
    /// and that distance. An empty bucket has no answer, nor has one where no
    /// distance is a number.
    open spec fn finds(
        &self,
        store: &VectorStore,
        query: Seq<u32>,
        measure: Measure,
        found: Option<(usize, u32)>,
    ) -> bool {
        match (store.centroids, store.ivf_index) {
            (Some(cs), Some(index)) => exists|c: usize| #[trigger]
                is_nearest(measure, rows(cs@), query, c) && if index@.contains_key(c) {
                    found_in_bucket(measure, rows(store.dense@), index@[c]@, query, found)
                } else {
                    found is None
                },
            _ => found is None,
        }
    }

    fn search<F: Fn(&Vec<u32>, &Vec<u32>) -> u32>(
        &self,
        store: &VectorStore,
        query_vec: &DenseVector,
        distance: &F,
    ) -> (found: Option<(usize, u32)>) {
        if store.centroids.is_none() || store.ivf_index.is_none() {
            return None;
        }
        let centroids = store.centroids.as_ref().unwrap();
        let index = store.ivf_index.as_ref().unwrap();
        proof {
            assert forall|c: int| 0 <= c < centroids.len() implies (#[trigger] centroids[c])@.len()
                == query_vec@.len() by {
                assert(rows(centroids@)[c].len() == store.dim());
            }
        }
        let best_centroid_index = nearest_vector_index(query_vec, centroids, distance);
        let candidate_indices = match index.get(&best_centroid_index) {
            Some(indices) => indices,
            None => {
                return None;
            },
        };
        proof {
            assert forall|i: int|
                0 <= i < store.dense.len() implies (#[trigger] store.dense[i])@.len()
                == query_vec@.len() by {
                assert(rows(store.dense@)[i].len() == store.dim());
            }
            assert forall|p: int|
                0 <= p < candidate_indices.len() implies (#[trigger] candidate_indices[p])
                < store.dense.len() by {
                assert(index@[best_centroid_index]@[p] < store.dense.len());
            }
        }
        let ds = distances_among(&store.dense, candidate_indices, query_vec, distance);
        match least(&ds) {
            Some(p) => Some((candidate_indices[p], ds[p])),
            None => None,
        }
    }
}

/// Whether `found` is what a scan of the vectors that `bucket` names finds
/// for the least distance to `query`: the handle at the first position of
/// the least distance, with that distance, or nothing where the bucket is
/// empty or no distance is a number.
pub open spec fn found_in_bucket(
    measure: Measure,
    vectors: Seq<Seq<u32>>,
    bucket: Seq<usize>,
    query: Seq<u32>,
    found: Option<(usize, u32)>,
) -> bool {
    exists|ds: Seq<u32>| #[trigger]
        is_table(measure, gather(vectors, bucket), query, ds) && match found {
            Some((handle, d)) => exists|p: int|
                #[trigger] least_of(ds, Some(p)) && handle == bucket[p] && d
                    == ds[p],
            None => least_of(ds, None),
        }
}

/// On a store that is not empty, the exhaustive strategy always has an
/// answer.
pub proof fn lemma_brute_force_answers(
    store: &VectorStore,
    query: Seq<u32>,
    measure: Measure,
    found: Option<(usize, u32)>,
)
    requires
        store.dense.len() > 0,
        BruteForceSearch.finds(store, query, measure, found),
    ensures
        found is Some,
        found.unwrap().0 < store.dense.len(),
{
}

/// On a store without an index, the pruned strategy has no answer.
pub proof fn lemma_ivf_needs_index(
    store: &VectorStore,
    query: Seq<u32>,
    measure: Measure,
    found: Option<(usize, u32)>,
)
    requires
        store.centroids is None || store.ivf_index is None,
        IVFSearch.finds(store, query, measure, found),
    ensures
        found is None,
{
}

/// An answer of the pruned strategy names a stored vector.
pub proof fn lemma_ivf_answer_is_stored(
    store: &VectorStore,
    query: Seq<u32>,
    measure: Measure,
    found: Option<(usize, u32)>,
)
    requires
        store.wf(),
        IVFSearch.finds(store, query, measure, found),
        found is Some,
    ensures
        found.unwrap().0 < store.dense.len(),
{
    let index = store.ivf_index->0;
    let c = choose|c: usize| #[trigger]
        is_nearest(measure, rows(store.centroids->0@), query, c) && if index@.contains_key(c) {
            found_in_bucket(measure, rows(store.dense@), index@[c]@, query, found)
        } else {
            found is None
        };
    let bucket = index@[c]@;
    let ds = choose|ds: Seq<u32>| #[trigger]
        is_table(measure, gather(rows(store.dense@), bucket), query, ds) && match found {
            Some((handle, d)) => exists|p: int|
                #[trigger] least_of(ds, Some(p)) && handle == bucket[p] && d
                    == ds[p],
            None => least_of(ds, None),
        };
    let p = choose|p: int|
        #[trigger] least_of(ds, Some(p)) && found.unwrap().0 == bucket[p]
            && found.unwrap().1 == ds[p];
    assert(index@[c]@[p] < store.dense.len());
}

/// Whether the vector at `best` is nearer to `query` than every other of
/// `vectors`: `d` is a number and its one distance to `query`, and every
/// distance from another of `vectors` is greater.
pub open spec fn is_sole_nearest(
    measure: Measure,
    vectors: Seq<Seq<u32>>,
    query: Seq<u32>,
    best: int,
    d: u32,
) -> bool {
    &&& 0 <= best < vectors.len()
    &&& !is_nan(d)
    &&& forall|h: int, e: u32|
        0 <= h < vectors.len() && #[trigger] measure(vectors[h], query, e) ==> if h == best {
            e == d
        } else {
            less(d, e)
        }
}

/// Whether the handle `best` stands in the bucket of every centroid that can
/// be the nearest to `query`.
pub open spec fn in_nearest_bucket(
    measure: Measure,
    centroids: Seq<Seq<u32>>,
    index: Map<usize, Vec<usize>>,
    query: Seq<u32>,
    best: usize,
) -> bool {
    forall|c: usize| #[trigger]
        is_nearest(measure, centroids, query, c) ==> index.contains_key(c) && index[c]@.contains(
            best,
        )
}

/// Where one stored vector is nearer to the query than every other, and its
/// handle stands in the bucket of the centroid nearest to the query, the
/// pruned strategy finds that handle, with its distance.
pub proof fn lemma_ivf_finds_the_nearest(
    store: &VectorStore,
    query: Seq<u32>,
    measure: Measure,
    found: Option<(usize, u32)>,
    best: usize,
    d: u32,
)
    requires
        store.wf(),
        store.centroids is Some,
        store.ivf_index is Some,
        IVFSearch.finds(store, query, measure, found),
        is_sole_nearest(measure, rows(store.dense@), query, best as int, d),
        in_nearest_bucket(
            measure,
            rows(store.centroids.unwrap()@),
            store.ivf_index.unwrap()@,
            query,
            best,
        ),
    ensures
        found == Some((best, d)),
{
    let vectors = rows(store.dense@);
    let index = store.ivf_index.unwrap();
    let c = choose|c: usize| #[trigger]
        is_nearest(measure, rows(store.centroids.unwrap()@), query, c) && if index@.contains_key(
            c,
        ) {
            found_in_bucket(measure, vectors, index@[c]@, query, found)
        } else {
            found is None
        };
    let bucket = index@[c]@;
    assert(bucket.contains(best));
    let at = choose|at: int| 0 <= at < bucket.len() && bucket[at] == best;
    let ds = choose|ds: Seq<u32>| #[trigger]
        is_table(measure, gather(vectors, bucket), query, ds) && match found {
            Some((handle, e)) => exists|p: int|
                #[trigger] least_of(ds, Some(p)) && handle == bucket[p] && e == ds[p],
            None => least_of(ds, None),
        };
    assert(gather(vectors, bucket)[at] == vectors[best as int]);
    assert(measure(vectors[best as int], query, ds[at]));
    assert(ds[at] == d);
    match found {
        Some((handle, e)) => {
            let p = choose|p: int|
                #[trigger] least_of(ds, Some(p)) && handle == bucket[p] && e == ds[p];
            assert(index@[c]@[p] < store.dense.len());
            assert(gather(vectors, bucket)[p] == vectors[handle as int]);
            assert(measure(vectors[handle as int], query, ds[p]));
            assert(!less(ds[at], ds[p]));
        },
        None => {
            assert(is_nan(ds[at]));
        },
    }
}

/// Where the exhaustive strategy answers with the one vector that is nearer
/// to the query than every other, and that vector's handle stands in the
/// bucket of the centroid nearest to the query, the pruned strategy gives the
/// same answer. Where the handle stands in another bucket, nothing is said.
pub proof fn lemma_strategies_agree(
    store: &VectorStore,
    query: Seq<u32>,
    measure: Measure,
    brute: Option<(usize, u32)>,
    pruned: Option<(usize, u32)>,
    d: u32,
)
    requires
        store.wf(),
        store.centroids is Some,
        store.ivf_index is Some,
        BruteForceSearch.finds(store, query, measure, brute),
        IVFSearch.finds(store, query, measure, pruned),
        is_sole_nearest(measure, rows(store.dense@), query, brute.unwrap().0 as int, d),
        in_nearest_bucket(
            measure,
            rows(store.centroids.unwrap()@),
            store.ivf_index.unwrap()@,
            query,
            brute.unwrap().0,
        ),
    ensures
        pruned == brute,
{
    let (best, exact) = brute.unwrap();
    assert(brute is Some);
    assert(measure(rows(store.dense@)[best as int], query, exact));
    lemma_ivf_finds_the_nearest(store, query, measure, pruned, best, d);
}

/// Any two vectors of a store have the same number of coordinates.
pub proof fn lemma_one_dimension(store: &VectorStore, i: int, j: int)
    requires
        store.wf(),
        0 <= i < store.dense.len(),
        0 <= j < store.dense.len(),
    ensures
        store.dense[i]@.len() == store.dense[j]@.len(),
{
    assert(rows(store.dense@)[i].len() == store.dim());
    assert(rows(store.dense@)[j].len() == store.dim());
}

/// The reduced view under a handle holds the leading coordinates of the full
/// vector under that handle: `REDUCED_DIM` of them, or all where the vector
/// has fewer.
pub proof fn lemma_reduced_view(store: &VectorStore, i: int)
    requires
        store.wf(),
        0 <= i < store.dense.len(),
    ensures
        store.quantized[i]@.len() == if store.dense[i]@.len() <= REDUCED_DIM {
            store.dense[i]@.len()
        } else {
            REDUCED_DIM as nat
        },
        forall|j: int|
            0 <= j < store.quantized[i]@.len() ==> store.quantized[i]@[j] == store.dense[i]@[j],
{
}

} // verus!
