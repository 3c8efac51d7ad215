//! Distance tables, the nearest of a set, means, and k-means clustering.

use crate::metric::{average_of, measure_of, takes_columns, takes_pairs, Average, Measure};
use crate::order::{nearest, nearest_of};
use crate::vector::{DenseVector, Distances};
use rand::seq::SliceRandom;
use vstd::prelude::*;

verus! {

/// The coordinates of each of `vs`.
pub open spec fn rows(vs: Seq<DenseVector>) -> Seq<Seq<u32>> {
    Seq::new(vs.len(), |i: int| vs[i]@)
}

/// Whether every one of `vs` has `dim` coordinates.
pub open spec fn has_dimension(vs: Seq<Seq<u32>>, dim: nat) -> bool {
    forall|i: int| 0 <= i < vs.len() ==> (#[trigger] vs[i]).len() == dim
}

/// The `j`-th coordinate of each of `group`, in turn.
pub open spec fn column(group: Seq<Seq<u32>>, j: int) -> Seq<u32> {
    Seq::new(group.len(), |i: int| group[i][j])
}

/// The vectors of `vectors` that `handles` name, in the order of `handles`.
pub open spec fn gather(vectors: Seq<Seq<u32>>, handles: Seq<usize>) -> Seq<Seq<u32>> {
    Seq::new(handles.len(), |p: int| vectors[handles[p] as int])
}

/// Whether `ds` holds, for each of `candidates` in turn, a distance from it to
/// `query`.
pub open spec fn is_table(
    measure: Measure,
    candidates: Seq<Seq<u32>>,
    query: Seq<u32>,
    ds: Seq<u32>,
) -> bool {
    &&& ds.len() == candidates.len()
    &&& forall|i: int|
        0 <= i < ds.len() ==> measure(#[trigger] candidates[i], query, ds[i])
}

/// Whether `c` is the position in `candidates` of the nearest to `query`,
/// under some table of distances.
pub open spec fn is_nearest(
    measure: Measure,
    candidates: Seq<Seq<u32>>,
    query: Seq<u32>,
    c: usize,
) -> bool {
    &&& c < candidates.len()
    &&& exists|ds: Seq<u32>| #[trigger]
        is_table(measure, candidates, query, ds) && nearest_of(ds, c as int)
}

/// Measures the distance from each of `candidates` to `query`.
pub fn distances_to<F: Fn(&Vec<u32>, &Vec<u32>) -> u32>(
    candidates: &Vec<DenseVector>,
    query: &DenseVector,
    distance: &F,
) -> (ds: Vec<u32>)
    requires
        takes_pairs(distance),
        forall|i: int|
            0 <= i < candidates.len() ==> (#[trigger] candidates[i])@.len() == query@.len(),
    ensures
        is_table(measure_of(distance), rows(candidates@), query@, ds@),
{
    let mut ds: Vec<u32> = Vec::new();
    let mut i: usize = 0;
    while i < candidates.len()
        invariant
            takes_pairs(distance),
            forall|i: int|
                0 <= i < candidates.len() ==> (#[trigger] candidates[i])@.len() == query@.len(),
            i <= candidates.len(),
            ds.len() == i,
            forall|p: int|
                0 <= p < i ==> measure_of(distance)(
                    #[trigger] rows(candidates@)[p],
                    query@,
                    ds@[p],
                ),
        decreases candidates.len() - i,
    {
        let d: u32 = candidates[i].distance(query, distance);
        ds.push(d);
        i += 1;
    }
    ds
}

/// Measures the distance to `query` from each vector that `handles` names.
pub fn distances_among<F: Fn(&Vec<u32>, &Vec<u32>) -> u32>(
    vectors: &Vec<DenseVector>,
    handles: &Vec<usize>,
    query: &DenseVector,
    distance: &F,
) -> (ds: Vec<u32>)
    requires
        takes_pairs(distance),
        forall|p: int| 0 <= p < handles.len() ==> #[trigger] handles[p] < vectors.len(),
        forall|i: int| 0 <= i < vectors.len() ==> (#[trigger] vectors[i])@.len() == query@.len(),
    ensures
        is_table(measure_of(distance), gather(rows(vectors@), handles@), query@, ds@),
{
    let mut ds: Vec<u32> = Vec::new();
    let mut p: usize = 0;
    while p < handles.len()
        invariant
            takes_pairs(distance),
            forall|p: int| 0 <= p < handles.len() ==> #[trigger] handles[p] < vectors.len(),
            forall|i: int|
                0 <= i < vectors.len() ==> (#[trigger] vectors[i])@.len() == query@.len(),
            p <= handles.len(),
            ds.len() == p,
            forall|q: int|
                0 <= q < p ==> measure_of(distance)(
                    #[trigger] gather(rows(vectors@), handles@)[q],
                    query@,
                    ds@[q],
                ),
        decreases handles.len() - p,
    {
        let d: u32 = vectors[handles[p]].distance(query, distance);
        ds.push(d);
        p += 1;
    }
    ds
}

/// The position in `candidates` of the one nearest to `query`. On equal
/// distances the first wins.
pub fn nearest_vector_index<F: Fn(&Vec<u32>, &Vec<u32>) -> u32>(
    query: &DenseVector,
    candidates: &Vec<DenseVector>,
    distance: &F,
) -> (i: usize)
    requires
        candidates.len() > 0,
        takes_pairs(distance),
        forall|i: int|
            0 <= i < candidates.len() ==> (#[trigger] candidates[i])@.len() == query@.len(),
    ensures
        is_nearest(measure_of(distance), rows(candidates@), query@, i),
{
    let ds = distances_to(candidates, query, distance);
    nearest(&ds)
}

/// Whether `mean` is, coordinate by coordinate, an average of the non-empty
/// `group`: its `j`-th coordinate averages the `j`-th coordinates of the group,
/// taken in the group's order.
pub open spec fn is_mean(
    averaging: Average,
    group: Seq<Seq<u32>>,
    mean: Seq<u32>,
) -> bool {
    &&& group.len() > 0
    &&& mean.len() == group[0].len()
    &&& forall|j: int|
        0 <= j < mean.len() ==> averaging(column(group, j), #[trigger] mean[j])
}

/// The centre of a non-empty group of vectors of one dimension: the average of
/// each coordinate.
pub fn mean_vector<M: Fn(&Vec<u32>) -> u32>(vectors: &Vec<DenseVector>, average: &M) -> (mean:
    DenseVector)
    requires
        vectors.len() > 0,
        has_dimension(rows(vectors@), vectors[0]@.len()),
        takes_columns(average),
    ensures
        is_mean(average_of(average), rows(vectors@), mean@),
{
    let dim: usize = vectors[0].elements.len();
    let mut elements: Vec<u32> = Vec::new();
    let mut j: usize = 0;
    while j < dim
        invariant
            vectors.len() > 0,
            dim == vectors[0]@.len(),
            has_dimension(rows(vectors@), dim as nat),
            takes_columns(average),
            j <= dim,
            elements.len() == j,
            forall|p: int|
                0 <= p < j ==> average_of(average)(
                    column(rows(vectors@), p),
                    #[trigger] elements@[p],
                ),
        decreases dim - j,
    {
        let mut col: Vec<u32> = Vec::new();
        let mut i: usize = 0;
        while i < vectors.len()
            invariant
                has_dimension(rows(vectors@), dim as nat),
                j < dim,
                i <= vectors.len(),
                col.len() == i,
                forall|p: int| 0 <= p < i ==> #[trigger] col@[p] == vectors[p]@[j as int],
            decreases vectors.len() - i,
        {
            proof {
                assert(rows(vectors@)[i as int].len() == dim);
            }
            col.push(vectors[i].elements[j]);
            i += 1;
        }
        proof {
            assert(col@ =~= column(rows(vectors@), j as int));
        }
        let m: u32 = average(&col);
        elements.push(m);
        j += 1;
    }
    proof {
        assert(rows(vectors@)[0] == vectors[0]@);
    }
    DenseVector { elements }
}

/// Whether `picked` is a draw of `amount` distinct handles below `n`, or of
/// all `n` where `amount` is larger.
pub open spec fn is_draw(picked: Seq<usize>, n: nat, amount: nat) -> bool {
    &&& picked.len() == if amount <= n { amount } else { n }
    &&& forall|i: int| 0 <= i < picked.len() ==> #[trigger] picked[i] < n
    &&& picked.no_duplicates()
}

/// Whether `picked` holds `amount` of `vectors`, no position taken twice, in
/// any order.
pub open spec fn is_sample(vectors: Seq<Seq<u32>>, picked: Seq<Seq<u32>>, amount: nat) -> bool {
    exists|at: Seq<usize>|
        {
            &&& #[trigger] is_draw(at, vectors.len(), amount)
            &&& picked.len() == at.len()
            &&& forall|i: int| 0 <= i < at.len() ==> #[trigger] picked[i] == vectors[at[i] as int]
        }
}

/// Calls `rand::seq::SliceRandom::choose_multiple` on `pool` with the
/// thread's generator and collects what it yields. The contract claims what
/// that method documents: it yields `amount` items, or all where the slice is
/// shorter, and takes no position of the slice twice; which items, and in
/// what order, is left open. On a slice of more than `u32::MAX` items the
/// method asserts, where debug assertions are on, that fewer items are asked
/// for than the slice holds: `requires` leaves the other calls out.
#[verifier::external_body]
fn choose_multiple(pool: &Vec<usize>, amount: usize) -> (picked: Vec<usize>)
    requires
        pool@.len() <= u32::MAX || amount < pool@.len(),
    ensures
        picked@.len() == if amount <= pool@.len() { amount as nat } else { pool@.len() },
        picked@.to_multiset().subset_of(pool@.to_multiset()),
{
    pool.choose_multiple(&mut rand::thread_rng(), amount).copied().collect()
}

/// Draws `amount` distinct handles below `n` at random, or all `n` where
/// `amount` is larger. Of more than `u32::MAX` handles, fewer than all can be
/// drawn.
pub fn draw_handles(n: usize, amount: usize) -> (picked: Vec<usize>)
    requires
        n <= u32::MAX || amount < n,
    ensures
        is_draw(picked@, n as nat, amount as nat),
{
    let mut pool: Vec<usize> = Vec::new();
    let mut i: usize = 0;
    while i < n
        invariant
            i <= n,
            pool.len() == i,
            forall|p: int| 0 <= p < i ==> #[trigger] pool@[p] == p,
        decreases n - i,
    {
        pool.push(i);
        i += 1;
    }
    let picked = choose_multiple(&pool, amount);
    proof {
        assert(pool@.no_duplicates());
        pool@.lemma_multiset_has_no_duplicates();
        pool@.to_multiset_ensures();
        picked@.to_multiset_ensures();
        assert forall|x: usize|
            picked@.to_multiset().contains(x) implies picked@.to_multiset().count(x) == 1 by {
            assert(picked@.to_multiset().count(x) <= pool@.to_multiset().count(x));
            assert(pool@.to_multiset().contains(x));
        }
        picked@.lemma_multiset_has_no_duplicates_conv();
        assert forall|i: int| 0 <= i < picked@.len() implies #[trigger] picked@[i] < n by {
            let x = picked@[i];
            assert(picked@.contains(x));
            assert(picked@.to_multiset().count(x) <= pool@.to_multiset().count(x));
            assert(pool@.contains(x));
            let p = choose|p: int| 0 <= p < pool@.len() && pool@[p] == x;
            assert(pool@[p] == p);
        }
    }
    picked
}

/// Takes `k` of `vectors` at random, none twice, as the first centroids. Of
/// more than `u32::MAX` vectors, fewer than all can be taken.
pub fn initial_centroids(vectors: &Vec<DenseVector>, k: usize) -> (centroids: Vec<DenseVector>)
    requires
        vectors.len() <= u32::MAX || k < vectors.len(),
    ensures
        is_sample(rows(vectors@), rows(centroids@), k as nat),
{
    let picked = draw_handles(vectors.len(), k);
    let mut centroids: Vec<DenseVector> = Vec::new();
    let mut i: usize = 0;
    while i < picked.len()
        invariant
            is_draw(picked@, vectors.len() as nat, k as nat),
            i <= picked.len(),
            centroids.len() == i,
            forall|p: int| 0 <= p < i ==> (#[trigger] centroids[p])@ == vectors[picked[p] as int]@,
        decreases picked.len() - i,
    {
        centroids.push(vectors[picked[i]].clone());
        i += 1;
    }
    proof {
        assert(is_draw(picked@, rows(vectors@).len(), k as nat));
    }
    centroids
}

/// The handles that `assignment` gives to cluster `c`, in rising order.
pub open spec fn members(assignment: Seq<usize>, c: usize) -> Seq<usize>
    decreases assignment.len(),
{
    if assignment.len() == 0 {
        Seq::empty()
    } else {
        let earlier = members(assignment.drop_last(), c);
        if assignment.last() == c {
            earlier.push((assignment.len() - 1) as usize)
        } else {
            earlier
        }
    }
}

/// What `members` holds: handles below the assignment's length, each given
/// to `c`, in strictly rising order, and every handle given to `c`.
pub proof fn lemma_members(assignment: Seq<usize>, c: usize)
    requires
        assignment.len() <= usize::MAX,
    ensures
        forall|p: int|
            0 <= p < members(assignment, c).len() ==> {
                &&& (#[trigger] members(assignment, c)[p]) < assignment.len()
                &&& assignment[members(assignment, c)[p] as int] == c
            },
        forall|p: int, q: int|
            0 <= p < q < members(assignment, c).len() ==> members(assignment, c)[p] < members(
                assignment,
                c,
            )[q],
        forall|h: int|
            0 <= h < assignment.len() && assignment[h] == c ==> members(assignment, c).contains(
                h as usize,
            ),
    decreases assignment.len(),
{
    if assignment.len() > 0 {
        let shorter = assignment.drop_last();
        let earlier = members(shorter, c);
        lemma_members(shorter, c);
        let now = members(assignment, c);
        let last = (assignment.len() - 1) as usize;
        assert(now == if assignment.last() == c {
            earlier.push(last)
        } else {
            earlier
        });
        assert forall|p: int| 0 <= p < now.len() implies (#[trigger] now[p]) < assignment.len()
            && assignment[now[p] as int] == c by {
            if p < earlier.len() {
                assert(now[p] == earlier[p]);
                assert(shorter[earlier[p] as int] == c);
            }
        }
        assert forall|p: int, q: int| 0 <= p < q < now.len() implies now[p] < now[q] by {
            assert(now[p] == earlier[p]);
            if q < earlier.len() {
                assert(now[q] == earlier[q]);
            }
        }
        assert forall|h: int| 0 <= h < assignment.len() && assignment[h] == c implies now.contains(
            h as usize,
        ) by {
            if h < shorter.len() {
                assert(shorter[h] == c);
                let p = choose|p: int| 0 <= p < earlier.len() && earlier[p] == h as usize;
                assert(now[p] == h as usize);
            } else {
                assert(now[now.len() - 1] == h as usize);
            }
        }
    }
}

/// Whether `assignment` names, for each of `vectors`, the centroid nearest to
/// it under some table of distances from the centroids to that vector.
pub open spec fn is_assignment(
    measure: Measure,
    vectors: Seq<Seq<u32>>,
    centroids: Seq<Seq<u32>>,
    assignment: Seq<usize>,
) -> bool {
    &&& assignment.len() == vectors.len()
    &&& forall|i: int|
        0 <= i < vectors.len() ==> is_nearest(
            measure,
            centroids,
            vectors[i],
            #[trigger] assignment[i],
        )
}

/// Whether `after` is where a centroid at `before` stands once its cluster
/// `group` is known: where it was if the cluster is empty, else at a mean of
/// the cluster.
pub open spec fn is_centre(
    averaging: Average,
    group: Seq<Seq<u32>>,
    before: Seq<u32>,
    after: Seq<u32>,
) -> bool {
    if group.len() == 0 {
        after == before
    } else {
        is_mean(averaging, group, after)
    }
}

/// Whether `after` is one pass on from `before`: each of `vectors` goes to its
/// nearest centroid of `before`, and each centroid moves to the centre of what
/// it was given.
pub open spec fn is_step(
    measure: Measure,
    averaging: Average,
    vectors: Seq<Seq<u32>>,
    before: Seq<Seq<u32>>,
    after: Seq<Seq<u32>>,
) -> bool {
    exists|assignment: Seq<usize>|
        {
            &&& #[trigger] is_assignment(measure, vectors, before, assignment)
            &&& after.len() == before.len()
            &&& forall|c: int|
                0 <= c < before.len() ==> is_centre(
                    averaging,
                    gather(vectors, members(assignment, c as usize)),
                    before[c],
                    #[trigger] after[c],
                )
        }
}

/// Whether `end` is what `passes` passes make of the centroids `start`.
pub open spec fn evolves(
    measure: Measure,
    averaging: Average,
    vectors: Seq<Seq<u32>>,
    start: Seq<Seq<u32>>,
    end: Seq<Seq<u32>>,
    passes: nat,
) -> bool
    decreases passes,
{
    if passes == 0 {
        end == start
    } else {
        exists|mid: Seq<Seq<u32>>|
            evolves(measure, averaging, vectors, start, mid, (passes - 1) as nat)
                && #[trigger] is_step(measure, averaging, vectors, mid, end)
    }
}

/// One more pass after `passes` passes makes `passes + 1`.
pub proof fn lemma_evolves_on(
    measure: Measure,
    averaging: Average,
    vectors: Seq<Seq<u32>>,
    start: Seq<Seq<u32>>,
    mid: Seq<Seq<u32>>,
    end: Seq<Seq<u32>>,
    passes: nat,
)
    requires
        evolves(measure, averaging, vectors, start, mid, passes),
        is_step(measure, averaging, vectors, mid, end),
    ensures
        evolves(measure, averaging, vectors, start, end, passes + 1),
{
    assert(((passes + 1) - 1) as nat == passes);
}

/// Assigns each of `vectors` to its nearest centroid.
pub fn assign<F: Fn(&Vec<u32>, &Vec<u32>) -> u32>(
    vectors: &Vec<DenseVector>,
    centroids: &Vec<DenseVector>,
    distance: &F,
) -> (assignment: Vec<usize>)
    requires
        centroids.len() > 0,
        has_dimension(rows(vectors@), centroids[0]@.len()),
        has_dimension(rows(centroids@), centroids[0]@.len()),
        takes_pairs(distance),
    ensures
        is_assignment(measure_of(distance), rows(vectors@), rows(centroids@), assignment@),
{
    let mut assignment: Vec<usize> = Vec::new();
    let mut i: usize = 0;
    while i < vectors.len()
        invariant
            centroids.len() > 0,
            has_dimension(rows(vectors@), centroids[0]@.len()),
            has_dimension(rows(centroids@), centroids[0]@.len()),
            takes_pairs(distance),
            i <= vectors.len(),
            assignment.len() == i,
            forall|p: int|
                0 <= p < i ==> is_nearest(
                    measure_of(distance),
                    rows(centroids@),
                    rows(vectors@)[p],
                    #[trigger] assignment@[p],
                ),
        decreases vectors.len() - i,
    {
        proof {
            assert(rows(vectors@)[i as int].len() == centroids[0]@.len());
            assert forall|c: int| 0 <= c < centroids.len() implies (#[trigger] centroids[c])@.len()
                == vectors[i as int]@.len() by {
                assert(rows(centroids@)[c].len() == centroids[0]@.len());
            }
        }
        let c = nearest_vector_index(&vectors[i], centroids, distance);
        assignment.push(c);
        i += 1;
    }
    assignment
}

/// Sorts the handles into `k` buckets by the cluster that `assignment` gives
/// each; a bucket holds its handles in rising order.
pub fn group(assignment: &Vec<usize>, k: usize) -> (buckets: Vec<Vec<usize>>)
    requires
        forall|i: int| 0 <= i < assignment.len() ==> #[trigger] assignment[i] < k,
    ensures
        buckets.len() == k,
        forall|c: int| 0 <= c < k ==> (#[trigger] buckets[c])@ == members(assignment@, c as usize),
{
    let mut buckets: Vec<Vec<usize>> = Vec::new();
    let mut c: usize = 0;
    while c < k
        invariant
            c <= k,
            buckets.len() == c,
            forall|b: int| 0 <= b < c ==> (#[trigger] buckets[b])@ == Seq::<usize>::empty(),
        decreases k - c,
    {
        buckets.push(Vec::new());
        c += 1;
    }
    let mut i: usize = 0;
    while i < assignment.len()
        invariant
            forall|i: int| 0 <= i < assignment.len() ==> #[trigger] assignment[i] < k,
            i <= assignment.len(),
            buckets.len() == k,
            forall|b: int|
                0 <= b < k ==> (#[trigger] buckets[b])@ == members(
                    assignment@.take(i as int),
                    b as usize,
                ),
        decreases assignment.len() - i,
    {
        let target: usize = assignment[i];
        proof {
            assert(assignment@.take(i + 1).drop_last() =~= assignment@.take(i as int));
        }
        buckets[target].push(i);
        i += 1;
    }
    proof {
        assert(assignment@.take(i as int) =~= assignment@);
    }
    buckets
}

/// Copies out the vectors that `handles` name, in the order of `handles`.
pub fn collect(vectors: &Vec<DenseVector>, handles: &Vec<usize>) -> (picked: Vec<DenseVector>)
    requires
        forall|p: int| 0 <= p < handles.len() ==> #[trigger] handles[p] < vectors.len(),
    ensures
        picked.len() == handles.len(),
        rows(picked@) == gather(rows(vectors@), handles@),
{
    let mut picked: Vec<DenseVector> = Vec::new();
    let mut p: usize = 0;
    while p < handles.len()
        invariant
            forall|p: int| 0 <= p < handles.len() ==> #[trigger] handles[p] < vectors.len(),
            p <= handles.len(),
            picked.len() == p,
            forall|q: int| 0 <= q < p ==> (#[trigger] picked[q])@ == vectors[handles[q] as int]@,
        decreases handles.len() - p,
    {
        picked.push(vectors[handles[p]].clone());
        p += 1;
    }
    proof {
        assert(rows(picked@) =~= gather(rows(vectors@), handles@));
    }
    picked
}

/// One pass: gives each of `vectors` to its nearest centroid, then moves each
/// centroid to the mean of what it was given. A centroid that was given
/// nothing stays where it is.
pub fn lloyd_step<F: Fn(&Vec<u32>, &Vec<u32>) -> u32, M: Fn(&Vec<u32>) -> u32>(
    vectors: &Vec<DenseVector>,
    centroids: &Vec<DenseVector>,
    distance: &F,
    average: &M,
) -> (moved: Vec<DenseVector>)
    requires
        centroids.len() > 0,
        has_dimension(rows(vectors@), centroids[0]@.len()),
        has_dimension(rows(centroids@), centroids[0]@.len()),
        takes_pairs(distance),
        takes_columns(average),
    ensures
        is_step(
            measure_of(distance),
            average_of(average),
            rows(vectors@),
            rows(centroids@),
            rows(moved@),
        ),
        has_dimension(rows(moved@), centroids[0]@.len()),
{
    let ghost dim = centroids[0]@.len();
    let assignment = assign(vectors, centroids, distance);
    let buckets = group(&assignment, centroids.len());
    let mut moved: Vec<DenseVector> = Vec::new();
    let mut c: usize = 0;
    while c < centroids.len()
        invariant
            centroids.len() > 0,
            dim == centroids[0]@.len(),
            has_dimension(rows(vectors@), dim),
            has_dimension(rows(centroids@), dim),
            takes_columns(average),
            assignment.len() == vectors.len(),
            buckets.len() == centroids.len(),
            forall|b: int|
                0 <= b < centroids.len() ==> (#[trigger] buckets[b])@ == members(
                    assignment@,
                    b as usize,
                ),
            c <= centroids.len(),
            moved.len() == c,
            has_dimension(rows(moved@), dim),
            forall|b: int|
                0 <= b < c ==> is_centre(
                    average_of(average),
                    gather(rows(vectors@), members(assignment@, b as usize)),
                    rows(centroids@)[b],
                    #[trigger] rows(moved@)[b],
                ),
        decreases centroids.len() - c,
    {
        let ghost earlier = rows(moved@);
        proof {
            lemma_members(assignment@, c);
            assert(buckets[c as int]@ == members(assignment@, c));
            assert(rows(centroids@)[c as int].len() == dim);
        }
        let centre = if buckets[c].len() == 0 {
            centroids[c].clone()
        } else {
            let cluster = collect(vectors, &buckets[c]);
            proof {
                let named = buckets[c as int]@;
                assert forall|p: int| 0 <= p < cluster.len() implies (#[trigger] rows(
                    cluster@,
                )[p]).len() == dim by {
                    assert(named[p] < assignment.len());
                    assert(gather(rows(vectors@), named)[p] == rows(vectors@)[named[p] as int]);
                }
                assert(rows(cluster@)[0] == cluster[0]@);
            }
            mean_vector(&cluster, average)
        };
        moved.push(centre);
        proof {
            assert forall|b: int| 0 <= b < moved.len() implies (#[trigger] rows(moved@)[b]).len()
                == dim by {
                if b < c {
                    assert(rows(moved@)[b] == earlier[b]);
                }
            }
            assert forall|b: int| 0 <= b < c + 1 implies is_centre(
                average_of(average),
                gather(rows(vectors@), members(assignment@, b as usize)),
                rows(centroids@)[b],
                #[trigger] rows(moved@)[b],
            ) by {
                if b < c {
                    assert(rows(moved@)[b] == earlier[b]);
                }
            }
        }
        c += 1;
    }
    moved
}

/// Runs `max_iters` passes from the centroids `initial`; it does not stop
/// early. Centroid `i` of the result is what became of centroid `i` of
/// `initial`.
pub fn lloyd<F: Fn(&Vec<u32>, &Vec<u32>) -> u32, M: Fn(&Vec<u32>) -> u32>(
    vectors: &Vec<DenseVector>,
    initial: Vec<DenseVector>,
    max_iters: usize,
    distance: &F,
    average: &M,
) -> (centroids: Vec<DenseVector>)
    requires
        initial.len() > 0,
        has_dimension(rows(vectors@), initial[0]@.len()),
        has_dimension(rows(initial@), initial[0]@.len()),
        takes_pairs(distance),
        takes_columns(average),
    ensures
        evolves(
            measure_of(distance),
            average_of(average),
            rows(vectors@),
            rows(initial@),
            rows(centroids@),
            max_iters as nat,
        ),
        max_iters == 0 ==> rows(centroids@) == rows(initial@),
        centroids.len() == initial.len(),
        has_dimension(rows(centroids@), initial[0]@.len()),
{
    let ghost start = rows(initial@);
    let ghost dim = initial[0]@.len();
    let mut centroids = initial;
    let mut pass: usize = 0;
    while pass < max_iters
        invariant
            takes_pairs(distance),
            takes_columns(average),
            has_dimension(rows(vectors@), dim),
            has_dimension(rows(centroids@), dim),
            centroids.len() == start.len(),
            centroids.len() > 0,
            pass <= max_iters,
            evolves(
                measure_of(distance),
                average_of(average),
                rows(vectors@),
                start,
                rows(centroids@),
                pass as nat,
            ),
        decreases max_iters - pass,
    {
        proof {
            assert(rows(centroids@)[0].len() == dim);
        }
        let moved = lloyd_step(vectors, &centroids, distance, average);
        proof {
            lemma_evolves_on(
                measure_of(distance),
                average_of(average),
                rows(vectors@),
                start,
                rows(centroids@),
                rows(moved@),
                pass as nat,
            );
        }
        centroids = moved;
        pass += 1;
    }
    centroids
}

/// Clusters `vectors` into `k` groups and returns their centroids: `k` of the
/// vectors drawn at random, none twice, then moved by `max_iters` passes. Of
/// more than `u32::MAX` vectors, `k` must be fewer than all.
pub fn kmeans<F: Fn(&Vec<u32>, &Vec<u32>) -> u32, M: Fn(&Vec<u32>) -> u32>(
    vectors: &Vec<DenseVector>,
    k: usize,
    max_iters: usize,
    distance: &F,
    average: &M,
) -> (centroids: Vec<DenseVector>)
    requires
        1 <= k <= vectors.len(),
        vectors.len() <= u32::MAX || k < vectors.len(),
        has_dimension(rows(vectors@), vectors[0]@.len()),
        takes_pairs(distance),
        takes_columns(average),
    ensures
        centroids.len() == k,
        has_dimension(rows(centroids@), vectors[0]@.len()),
        exists|start: Seq<Seq<u32>>| #[trigger]
            is_sample(rows(vectors@), start, k as nat) && evolves(
                measure_of(distance),
                average_of(average),
                rows(vectors@),
                start,
                rows(centroids@),
                max_iters as nat,
            ),
        max_iters == 0 ==> is_sample(rows(vectors@), rows(centroids@), k as nat),
{
    let initial = initial_centroids(vectors, k);
    proof {
        let at = choose|at: Seq<usize>|
            {
                &&& #[trigger] is_draw(at, rows(vectors@).len(), k as nat)
                &&& rows(initial@).len() == at.len()
                &&& forall|i: int|
                    0 <= i < at.len() ==> #[trigger] rows(initial@)[i] == rows(
                        vectors@,
                    )[at[i] as int]
            };
        assert forall|i: int| 0 <= i < rows(initial@).len() implies (#[trigger] rows(
            initial@,
        )[i]).len() == vectors[0]@.len() by {
            assert(rows(initial@)[i] == rows(vectors@)[at[i] as int]);
        }
        assert(rows(initial@)[0] == initial[0]@);
    }
    let ghost start = rows(initial@);
    let centroids = lloyd(vectors, initial, max_iters, distance, average);
    proof {
        assert(is_sample(rows(vectors@), start, k as nat));
    }
    centroids
}

} // verus!
