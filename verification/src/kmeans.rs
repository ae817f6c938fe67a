//! Generic k-means clustering: k-means++ seeding followed by Lloyd iteration,
//! over any point type with a metric and a mean operator.  The seeding draws
//! random indices through trusted wrappers, so every contract here holds for
//! every outcome of those draws.

use vstd::prelude::*;
use crate::space::{Metric, MeanAggregate};
use crate::sampling::{random_below, weighted_choice, weight_sum};

verus! {

/// The round bound `Kmeans::new` uses, so that clustering terminates even on
/// inputs that oscillate; `Kmeans::with_rounds` takes the bound as a
/// parameter.  On reaching it the current centers are returned as they stand.
pub const MAX_ROUNDS: usize = 100;

/// Every element of the sequence lies in the space's domain.
pub open spec fn all_in_space<T, S: Metric<T>>(space: S, s: Seq<T>) -> bool {
    forall|i: int| 0 <= i < s.len() ==> space.in_space(#[trigger] s[i])
}

/// The point is (observationally) one of the data points.
pub open spec fn from_data<T, S: Metric<T>>(space: S, data: Seq<T>, p: T) -> bool {
    exists|j: int| 0 <= j < data.len() && space.spec_same(p, #[trigger] data[j])
}

/// The point is a data point, or the mean of a non-empty cluster of data
/// points.  Every center k-means returns is of this shape: a cluster that
/// turns empty keeps its previous center, which again is of this shape.
pub open spec fn derived_from<T, S: MeanAggregate<T>>(space: S, data: Seq<T>, p: T) -> bool {
    from_data(space, data, p) || exists|items: Seq<T>|
        items.len() > 0 && (forall|i: int|
            0 <= i < items.len() ==> from_data(space, data, #[trigger] items[i]))
            && space.mean_post(items, p)
}

/// `c` is the cluster the assignment step gives the point: its distance to
/// center `c` beats every center, and every earlier center strictly.
pub open spec fn assigned_to<T, S: Metric<T>>(space: S, means: Seq<T>, p: T, c: int) -> bool {
    &&& 0 <= c < means.len()
    &&& forall|j: int|
        0 <= j < means.len() ==> space.spec_distance(p, means[c]) <= space.spec_distance(
            p,
            #[trigger] means[j],
        )
    &&& forall|j: int|
        0 <= j < c ==> space.spec_distance(p, #[trigger] means[j]) > space.spec_distance(
            p,
            means[c],
        )
}

/// The data points the assignment step hands to cluster `c`, in data order.
pub open spec fn cluster_of<T, S: Metric<T>>(
    space: S,
    data: Seq<T>,
    means: Seq<T>,
    c: int,
) -> Seq<T>
    decreases data.len(),
{
    if data.len() == 0 {
        Seq::empty()
    } else {
        cluster_of(space, data.drop_last(), means, c) + (if assigned_to(
            space,
            means,
            data.last(),
            c,
        ) {
            seq![data.last()]
        } else {
            Seq::<T>::empty()
        })
    }
}

/// A Lloyd fixed point: every center whose assigned cluster is non-empty is
/// the mean of that cluster, so an update step leaves every center unchanged
/// (a center with an empty cluster is kept unchanged by definition).
pub open spec fn lloyd_fixed_point<T, S: MeanAggregate<T>>(
    space: S,
    data: Seq<T>,
    means: Seq<T>,
) -> bool {
    forall|c: int|
        0 <= c < means.len() && (#[trigger] cluster_of(space, data, means, c)).len() > 0
            ==> space.mean_post(cluster_of(space, data, means, c), means[c])
}

/// A point is assigned to exactly one cluster.
pub proof fn lemma_assigned_unique<T, S: Metric<T>>(
    space: S,
    means: Seq<T>,
    p: T,
    c1: int,
    c2: int,
)
    requires
        assigned_to(space, means, p, c1),
        assigned_to(space, means, p, c2),
    ensures
        c1 == c2,
{
    if c1 < c2 {
        assert(space.spec_distance(p, means[c1]) > space.spec_distance(p, means[c2]));
        assert(space.spec_distance(p, means[c1]) <= space.spec_distance(p, means[c2]));
    }
    if c2 < c1 {
        assert(space.spec_distance(p, means[c2]) > space.spec_distance(p, means[c1]));
        assert(space.spec_distance(p, means[c2]) <= space.spec_distance(p, means[c1]));
    }
}

/// Pointwise observationally-equal centers assign every point alike, so they
/// carve the same clusters out of the data.
pub proof fn lemma_cluster_congruent<T, S: Metric<T>>(
    space: S,
    data: Seq<T>,
    m1: Seq<T>,
    m2: Seq<T>,
    c: int,
)
    requires
        all_in_space(space, data),
        all_in_space(space, m1),
        all_in_space(space, m2),
        m1.len() == m2.len(),
        forall|i: int| 0 <= i < m1.len() ==> space.spec_same(#[trigger] m1[i], m2[i]),
    ensures
        cluster_of(space, data, m1, c) == cluster_of(space, data, m2, c),
    decreases data.len(),
{
    if data.len() > 0 {
        assert forall|i: int| 0 <= i < data.drop_last().len() implies space.in_space(
            #[trigger] data.drop_last()[i],
        ) by {
            assert(data.drop_last()[i] == data[i]);
        }
        lemma_cluster_congruent(space, data.drop_last(), m1, m2, c);
        let p = data.last();
        assert(space.in_space(data[data.len() - 1]));
        assert forall|j: int| 0 <= j < m1.len() implies space.spec_distance(p, #[trigger] m1[j])
            == space.spec_distance(p, m2[j]) by {
            space.lemma_distance_respects_same(p, m1[j], m2[j]);
        }
        if assigned_to(space, m1, p, c) {
            assert forall|j: int|
                0 <= j < m2.len() implies space.spec_distance(p, m2[c]) <= space.spec_distance(
                p,
                #[trigger] m2[j],
            ) by {
                assert(space.spec_distance(p, m1[c]) <= space.spec_distance(p, m1[j]));
            }
            assert forall|j: int|
                0 <= j < c implies space.spec_distance(p, #[trigger] m2[j]) > space.spec_distance(
                p,
                m2[c],
            ) by {
                assert(space.spec_distance(p, m1[j]) > space.spec_distance(p, m1[c]));
            }
            assert(assigned_to(space, m2, p, c));
        }
        if assigned_to(space, m2, p, c) {
            assert forall|j: int|
                0 <= j < m1.len() implies space.spec_distance(p, m1[c]) <= space.spec_distance(
                p,
                #[trigger] m1[j],
            ) by {
                assert(space.spec_distance(p, m2[c]) <= space.spec_distance(p, m2[j]));
            }
            assert forall|j: int|
                0 <= j < c implies space.spec_distance(p, #[trigger] m1[j]) > space.spec_distance(
                p,
                m1[c],
            ) by {
                assert(space.spec_distance(p, m2[j]) > space.spec_distance(p, m2[c]));
            }
            assert(assigned_to(space, m1, p, c));
        }
    }
}

/// The index of the center nearest to `target`; ties go to the lowest index.
fn classify<T, S: Metric<T>>(target: &T, means: &Vec<T>, space: &S) -> (r: usize)
    requires
        means@.len() > 0,
        space.in_space(*target),
        all_in_space(*space, means@),
    ensures
        r < means@.len(),
        forall|i: int|
            0 <= i < means@.len() ==> space.spec_distance(*target, means@[r as int])
                <= space.spec_distance(*target, #[trigger] means@[i]),
        forall|i: int|
            0 <= i < r as int ==> space.spec_distance(*target, #[trigger] means@[i])
                > space.spec_distance(*target, means@[r as int]),
        assigned_to(*space, means@, *target, r as int),
{
    let n = means.len();
    let mut best: usize = 0;
    let mut bd: u64 = space.distance(target, &means[0]);
    let mut i: usize = 1;
    while i < n
        invariant
            n == means@.len(),
            n > 0,
            space.in_space(*target),
            all_in_space(*space, means@),
            (best as int) < i as int,
            1 <= i <= n,
            bd == space.spec_distance(*target, means@[best as int]),
            forall|j: int|
                0 <= j < i as int ==> bd <= space.spec_distance(*target, #[trigger] means@[j]),
            forall|j: int|
                0 <= j < best as int ==> space.spec_distance(*target, #[trigger] means@[j]) > bd,
        decreases n - i,
    {
        let d = space.distance(target, &means[i]);
        if d < bd {
            best = i;
            bd = d;
        }
        i = i + 1;
    }
    best
}

/// k-means++ seeding: the first center is drawn uniformly from the data, and
/// each further center is drawn with probability proportional to one plus the
/// squared distance to the nearest already-chosen center (the one-plus
/// smoothing keeps every weight positive, so degenerate inputs stay
/// samplable).  Weights are capped so that their total fits the weight type.
fn initial_plus_plus<T, S: MeanAggregate<T>>(k: usize, space: &S, data: &Vec<T>) -> (r: Vec<T>)
    requires
        k >= 1,
        data@.len() >= 1,
        all_in_space(*space, data@),
    ensures
        r@.len() == k,
        all_in_space(*space, r@),
        forall|i: int| 0 <= i < k ==> from_data(*space, data@, #[trigger] r@[i]),
{
    let n = data.len();
    let mut result: Vec<T> = Vec::new();
    let first = random_below(n);
    result.push(space.clone_point(&data[first]));
    let cap: u64 = u64::MAX / (n as u64);
    proof {
        vstd::arithmetic::div_mod::lemma_div_non_zero(u64::MAX as int, n as int);
    }
    while result.len() < k
        invariant
            n == data@.len(),
            n >= 1,
            all_in_space(*space, data@),
            cap as int == u64::MAX as int / n as int,
            cap >= 1,
            1 <= result@.len() <= k,
            all_in_space(*space, result@),
            forall|i: int| 0 <= i < result@.len() ==> from_data(*space, data@, #[trigger] result@[i]),
        decreases k - result@.len(),
    {
        let mut weights: Vec<u64> = Vec::new();
        let mut i: usize = 0;
        while i < n
            invariant
                n == data@.len(),
                all_in_space(*space, data@),
                all_in_space(*space, result@),
                result@.len() >= 1,
                cap >= 1,
                0 <= i <= n,
                weights@.len() == i,
                forall|j: int| 0 <= j < i ==> 1 <= #[trigger] weights@[j] <= cap,
                weight_sum(weights@) <= i as int * cap as int,
            decreases n - i,
        {
            let nc = result.len();
            let mut d = space.distance(&data[i], &result[0]);
            let mut c: usize = 1;
            while c < nc
                invariant
                    n == data@.len(),
                    all_in_space(*space, data@),
                    all_in_space(*space, result@),
                    nc == result@.len(),
                    (i as int) < n,
                    1 <= c <= nc,
                decreases nc - c,
            {
                let d2 = space.distance(&data[i], &result[c]);
                if d2 < d {
                    d = d2;
                }
                c = c + 1;
            }
            let w = if d >= 0xFFFF_FFFFu64 {
                cap
            } else {
                proof {
                    assert(d as int * d as int <= u64::MAX as int) by (nonlinear_arith)
                        requires
                            (d as int) < 0xFFFF_FFFF,
                            d >= 0,
                    ;
                }
                let sq = d * d;
                if sq >= cap {
                    cap
                } else {
                    sq + 1
                }
            };
            proof {
                assert(weights@.push(w).drop_last() =~= weights@);
                assert((i as int + 1) * cap as int == i as int * cap as int + cap as int)
                    by (nonlinear_arith);
            }
            weights.push(w);
            i = i + 1;
        }
        proof {
            vstd::arithmetic::div_mod::lemma_fundamental_div_mod(u64::MAX as int, n as int);
            assert(n as int * cap as int <= u64::MAX as int);
        }
        let pick = weighted_choice(&weights);
        result.push(space.clone_point(&data[pick]));
    }
    result
}

/// Lloyd iteration: assign every point to its nearest center, replace each
/// center that received points by the mean of those points, keep unchanged a
/// center whose cluster is empty, and stop as soon as no center moved (or
/// after `max_rounds` rounds, returning the centers reached so far).  The
/// flag reports whether the run converged; a converged run's centers are a
/// Lloyd fixed point.
fn kmeans_iterate<T, S: MeanAggregate<T>>(
    k: usize,
    data: &Vec<T>,
    space: &S,
    max_rounds: usize,
) -> (r: (Vec<T>, bool))
    requires
        1 <= k <= data@.len(),
        all_in_space(*space, data@),
    ensures
        r.0@.len() == k,
        all_in_space(*space, r.0@),
        forall|i: int| 0 <= i < k ==> derived_from(*space, data@, #[trigger] r.0@[i]),
        r.1 ==> lloyd_fixed_point(*space, data@, r.0@),
{
    let n = data.len();
    let mut means = initial_plus_plus(k, space, data);
    let mut round: usize = 0;
    while round < max_rounds
        invariant
            n == data@.len(),
            1 <= k <= n,
            all_in_space(*space, data@),
            means@.len() == k,
            all_in_space(*space, means@),
            forall|i: int| 0 <= i < k ==> derived_from(*space, data@, #[trigger] means@[i]),
        ensures
            means@.len() == k,
            all_in_space(*space, means@),
            forall|i: int| 0 <= i < k ==> derived_from(*space, data@, #[trigger] means@[i]),
        decreases max_rounds - round,
    {
        // Assignment step: the nearest center for every data point.
        let mut assign: Vec<usize> = Vec::new();
        let mut di: usize = 0;
        while di < n
            invariant
                n == data@.len(),
                all_in_space(*space, data@),
                means@.len() == k,
                k >= 1,
                all_in_space(*space, means@),
                0 <= di <= n,
                assign@.len() == di,
                forall|j: int| 0 <= j < di ==> (#[trigger] assign@[j]) < k,
                forall|j: int|
                    0 <= j < di ==> assigned_to(
                        *space,
                        means@,
                        data@[j],
                        (#[trigger] assign@[j]) as int,
                    ),
            decreases n - di,
        {
            assign.push(classify(&data[di], &means, space));
            di = di + 1;
        }
        // Update step: mean of each non-empty cluster, previous center else.
        let mut new_means: Vec<T> = Vec::new();
        let mut c: usize = 0;
        while c < k
            invariant
                n == data@.len(),
                1 <= k <= n,
                all_in_space(*space, data@),
                means@.len() == k,
                all_in_space(*space, means@),
                forall|i: int| 0 <= i < k ==> derived_from(*space, data@, #[trigger] means@[i]),
                assign@.len() == n,
                forall|j: int| 0 <= j < n ==> (#[trigger] assign@[j]) < k,
                forall|j: int|
                    0 <= j < n ==> assigned_to(
                        *space,
                        means@,
                        data@[j],
                        (#[trigger] assign@[j]) as int,
                    ),
                0 <= c <= k,
                new_means@.len() == c,
                all_in_space(*space, new_means@),
                forall|i: int| 0 <= i < c ==> derived_from(*space, data@, #[trigger] new_means@[i]),
                forall|c2: int|
                    0 <= c2 < c ==> cluster_of(*space, data@, means@, c2).len() == 0
                        || space.mean_post(
                        cluster_of(*space, data@, means@, c2),
                        #[trigger] new_means@[c2],
                    ),
            decreases k - c,
        {
            let mut items: Vec<T> = Vec::new();
            let mut di2: usize = 0;
            while di2 < n
                invariant
                    n == data@.len(),
                    all_in_space(*space, data@),
                    means@.len() == k,
                    all_in_space(*space, means@),
                    (c as int) < k,
                    assign@.len() == n,
                    forall|j: int| 0 <= j < n ==> (#[trigger] assign@[j]) < k,
                    forall|j: int|
                        0 <= j < n ==> assigned_to(
                            *space,
                            means@,
                            data@[j],
                            (#[trigger] assign@[j]) as int,
                        ),
                    0 <= di2 <= n,
                    all_in_space(*space, items@),
                    forall|i: int|
                        0 <= i < items@.len() ==> from_data(*space, data@, #[trigger] items@[i]),
                    items@.len() == cluster_of(
                        *space,
                        data@.take(di2 as int),
                        means@,
                        c as int,
                    ).len(),
                    forall|m: int|
                        0 <= m < items@.len() ==> space.spec_same(
                            #[trigger] items@[m],
                            cluster_of(*space, data@.take(di2 as int), means@, c as int)[m],
                        ),
                decreases n - di2,
            {
                proof {
                    assert(data@.take(di2 as int + 1).drop_last() =~= data@.take(di2 as int));
                    assert(data@.take(di2 as int + 1).last() == data@[di2 as int]);
                }
                let ghost prefix_cluster = cluster_of(
                    *space,
                    data@.take(di2 as int),
                    means@,
                    c as int,
                );
                let ghost next_cluster = cluster_of(
                    *space,
                    data@.take(di2 as int + 1),
                    means@,
                    c as int,
                );
                if assign[di2] == c {
                    let p = space.clone_point(&data[di2]);
                    proof {
                        assert(space.spec_same(p, data@[di2 as int]));
                        assert(assigned_to(*space, means@, data@[di2 as int], c as int));
                        assert(next_cluster =~= prefix_cluster + seq![data@[di2 as int]]);
                    }
                    items.push(p);
                } else {
                    proof {
                        if assigned_to(*space, means@, data@[di2 as int], c as int) {
                            lemma_assigned_unique(
                                *space,
                                means@,
                                data@[di2 as int],
                                c as int,
                                assign@[di2 as int] as int,
                            );
                        }
                        assert(next_cluster =~= prefix_cluster + Seq::<T>::empty());
                        assert(next_cluster =~= prefix_cluster);
                    }
                }
                di2 = di2 + 1;
            }
            proof {
                assert(data@.take(n as int) =~= data@);
            }
            let ghost full_cluster = cluster_of(*space, data@, means@, c as int);
            if items.len() > 0 {
                let m = space.mean(&items);
                proof {
                    assert(space.mean_post(items@, m));
                    assert(derived_from(*space, data@, m));
                    space.lemma_mean_respects_items(items@, full_cluster, m);
                }
                new_means.push(m);
            } else {
                let m = space.clone_point(&means[c]);
                proof {
                    let mc = means@[c as int];
                    assert(derived_from(*space, data@, mc));
                    if from_data(*space, data@, mc) {
                        let j = choose|j: int|
                            0 <= j < data@.len() && space.spec_same(mc, #[trigger] data@[j]);
                        space.lemma_same_is_equivalence(m, mc, data@[j]);
                        assert(space.spec_same(m, data@[j]));
                    } else {
                        let s = choose|s: Seq<T>|
                            s.len() > 0 && (forall|i: int|
                                0 <= i < s.len() ==> from_data(*space, data@, #[trigger] s[i]))
                                && space.mean_post(s, mc);
                        space.lemma_same_is_equivalence(m, mc, mc);
                        space.lemma_mean_respects_same(s, mc, m);
                    }
                    assert(derived_from(*space, data@, m));
                }
                new_means.push(m);
            }
            c = c + 1;
        }
        // Convergence check: stop once every center is unchanged.
        let mut same = true;
        let mut c2: usize = 0;
        while c2 < k
            invariant
                means@.len() == k,
                new_means@.len() == k,
                all_in_space(*space, means@),
                all_in_space(*space, new_means@),
                0 <= c2 <= k,
                same ==> forall|c3: int|
                    0 <= c3 < c2 ==> space.spec_same(#[trigger] means@[c3], new_means@[c3]),
            decreases k - c2,
        {
            if !space.same_point(&means[c2], &new_means[c2]) {
                same = false;
            }
            c2 = c2 + 1;
        }
        if same {
            proof {
                assert forall|c4: int|
                    0 <= c4 < k && (#[trigger] cluster_of(*space, data@, new_means@, c4)).len()
                        > 0 implies space.mean_post(
                    cluster_of(*space, data@, new_means@, c4),
                    new_means@[c4],
                ) by {
                    lemma_cluster_congruent(*space, data@, means@, new_means@, c4);
                    assert(cluster_of(*space, data@, means@, c4) == cluster_of(
                        *space,
                        data@,
                        new_means@,
                        c4,
                    ));
                }
                assert(lloyd_fixed_point(*space, data@, new_means@));
            }
            return (new_means, true);
        }
        means = new_means;
        round = round + 1;
    }
    (means, false)
}

/// A clustering result: exactly `k` centers, each either a data point or the
/// mean of a non-empty cluster of data points, together with whether the
/// iteration converged before its round bound ran out.
pub struct Kmeans<T, S: MeanAggregate<T>> {
    means: Vec<T>,
    space: S,
    converged: bool,
}

impl<T, S: MeanAggregate<T>> Kmeans<T, S> {
    /// The centers the clustering settled on.
    pub closed spec fn means_view(&self) -> Seq<T> {
        self.means@
    }

    /// The space the clustering was performed in.
    pub closed spec fn space_of(&self) -> S {
        self.space
    }

    /// Every stored center lies in the space's domain.
    pub open spec fn wf(&self) -> bool {
        all_in_space(self.space_of(), self.means_view())
    }

    /// Whether the iteration stopped because no center moved.
    pub closed spec fn spec_converged(&self) -> bool {
        self.converged
    }

    /// Clusters `data` into `k` groups under the given space's distance and
    /// mean, with the default round bound; `k` must be between one and the
    /// number of data points.
    pub fn new(k: usize, data: &Vec<T>, space: S) -> (r: Kmeans<T, S>)
        requires
            1 <= k <= data@.len(),
            all_in_space(space, data@),
        ensures
            r.wf(),
            r.means_view().len() == k,
            r.space_of() == space,
            forall|i: int|
                0 <= i < k ==> derived_from(space, data@, #[trigger] r.means_view()[i]),
            r.spec_converged() ==> lloyd_fixed_point(space, data@, r.means_view()),
    {
        Kmeans::with_rounds(k, data, space, MAX_ROUNDS)
    }

    /// As `new`, with the round bound chosen by the caller; a run that does
    /// not converge within it returns the centers reached so far and reports
    /// so through `converged`.
    pub fn with_rounds(k: usize, data: &Vec<T>, space: S, max_rounds: usize) -> (r: Kmeans<T, S>)
        requires
            1 <= k <= data@.len(),
            all_in_space(space, data@),
        ensures
            r.wf(),
            r.means_view().len() == k,
            r.space_of() == space,
            forall|i: int|
                0 <= i < k ==> derived_from(space, data@, #[trigger] r.means_view()[i]),
            r.spec_converged() ==> lloyd_fixed_point(space, data@, r.means_view()),
    {
        let (means, converged) = kmeans_iterate(k, data, &space, max_rounds);
        Kmeans { means, space, converged }
    }

    /// Whether the iteration stopped because no center moved; the centers of
    /// a converged run are a Lloyd fixed point.
    pub fn converged(&self) -> (r: bool)
        ensures
            r == self.spec_converged(),
    {
        self.converged
    }

    /// The number of centers.
    pub fn k(&self) -> (r: usize)
        ensures
            r == self.means_view().len(),
    {
        self.means.len()
    }

    /// The index of the center nearest to `sample`; ties go to the lowest
    /// index.
    pub fn classification(&self, sample: &T) -> (r: usize)
        requires
            self.wf(),
            self.means_view().len() > 0,
            self.space_of().in_space(*sample),
        ensures
            r < self.means_view().len(),
            forall|i: int|
                0 <= i < self.means_view().len() ==> self.space_of().spec_distance(
                    *sample,
                    self.means_view()[r as int],
                ) <= self.space_of().spec_distance(*sample, #[trigger] self.means_view()[i]),
            forall|i: int|
                0 <= i < r as int ==> self.space_of().spec_distance(
                    *sample,
                    #[trigger] self.means_view()[i],
                ) > self.space_of().spec_distance(*sample, self.means_view()[r as int]),
    {
        classify(sample, &self.means, &self.space)
    }

    /// A copy of the centers, in order.
    pub fn copy_means(&self) -> (r: Vec<T>)
        requires
            self.wf(),
        ensures
            r@.len() == self.means_view().len(),
            forall|i: int|
                0 <= i < r@.len() ==> self.space_of().spec_same(
                    #[trigger] r@[i],
                    self.means_view()[i],
                ),
            all_in_space(self.space_of(), r@),
    {
        let n = self.means.len();
        let mut r: Vec<T> = Vec::new();
        let mut i: usize = 0;
        while i < n
            invariant
                self.wf(),
                n == self.means_view().len(),
                0 <= i <= n,
                r@.len() == i,
                forall|j: int|
                    0 <= j < i ==> self.space_of().spec_same(
                        #[trigger] r@[j],
                        self.means_view()[j],
                    ),
                all_in_space(self.space_of(), r@),
            decreases n - i,
        {
            r.push(self.space.clone_point(&self.means[i]));
            i = i + 1;
        }
        r
    }

    /// The centers themselves, consuming the clustering.
    pub fn move_means(self) -> (r: Vec<T>)
        ensures
            r@ == self.means_view(),
    {
        self.means
    }
}

} // verus!
