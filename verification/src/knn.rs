//! k-nearest-neighbor classification: store labeled examples, and classify a
//! query by majority vote among the `k` stored examples closest to it.  The
//! neighbors are the `k` smallest under the order "smaller distance first,
//! earlier-stored example first on ties", and the vote's own tie goes to the
//! label whose first voter was stored earliest.

use vstd::prelude::*;
use crate::space::Metric;
use crate::hash_histogram::{
    HashHistogram, spec_bump, spec_mode, spec_total, wf_seq, has_key, lemma_bump, lemma_mode_max,
};
use crate::training_harness::{Classifier, ConfusionMatrix, spec_record_all, lemma_record_all_wf};

verus! {

/// The strict order in which neighbors are chosen: by distance, then by
/// position among the stored examples.
pub open spec fn key_lt(dists: Seq<u64>, i: int, j: int) -> bool {
    dists[i] < dists[j] || (dists[i] == dists[j] && i < j)
}

/// `sel` lists the `k` nearest positions, in the order they are chosen:
/// ascending under `key_lt`, and every position outside `sel` comes after
/// every position in it.
pub open spec fn selection_of(sel: Seq<int>, dists: Seq<u64>, k: int) -> bool {
    &&& sel.len() == k
    &&& forall|a: int| 0 <= a < k ==> 0 <= #[trigger] sel[a] < dists.len()
    &&& forall|a: int, b: int| 0 <= a < b < k ==> key_lt(dists, #[trigger] sel[a], #[trigger] sel[b])
    &&& forall|a: int, j: int|
        #![trigger sel[a], sel.contains(j)]
        0 <= a < k && 0 <= j < dists.len() && !sel.contains(j) ==> key_lt(dists, sel[a], j)
}

/// The histogram reached by bumping the given keys in order.
pub open spec fn hist_of(ks: Seq<u64>) -> Seq<(u64, u64)>
    decreases ks.len(),
{
    if ks.len() == 0 {
        Seq::empty()
    } else {
        spec_bump(hist_of(ks.drop_last()), ks.last())
    }
}

/// The labels of the selected positions, in selection order.
pub open spec fn select_labels(labels: Seq<u64>, sel: Seq<int>) -> Seq<u64> {
    Seq::new(sel.len(), |a: int| labels[sel[a]])
}

/// The label a sequence of votes elects: the most frequent one, ties going to
/// the label whose first vote came earliest.
pub open spec fn vote_of(ks: Seq<u64>) -> u64 {
    spec_mode(hist_of(ks))
}

/// The vote histogram is well formed, counts one bump per key, is non-empty
/// whenever some key was bumped, and holds no key that was never bumped.
pub proof fn lemma_hist_of(ks: Seq<u64>)
    requires
        ks.len() <= u64::MAX,
    ensures
        wf_seq(hist_of(ks)),
        spec_total(hist_of(ks)) == ks.len(),
        ks.len() > 0 ==> hist_of(ks).len() > 0,
        forall|i: int| 0 <= i < hist_of(ks).len() ==> ks.contains((#[trigger] hist_of(ks)[i]).0),
    decreases ks.len(),
{
    if ks.len() > 0 {
        let prev = hist_of(ks.drop_last());
        lemma_hist_of(ks.drop_last());
        lemma_bump(prev, ks.last());
        assert forall|i: int| 0 <= i < hist_of(ks).len() implies ks.contains(
            (#[trigger] hist_of(ks)[i]).0,
        ) by {
            if hist_of(ks)[i].0 == ks.last() {
                assert(ks[ks.len() - 1] == ks.last());
            } else {
                assert(prev[i].0 == hist_of(ks)[i].0);
                assert(ks.drop_last().contains(prev[i].0));
                let m = choose|m: int|
                    0 <= m < ks.drop_last().len() && ks.drop_last()[m] == prev[i].0;
                assert(ks[m] == prev[i].0);
            }
        }
    }
}

/// A k-nearest-neighbor classifier: labeled examples, a neighbor count, and a
/// distance function.
pub struct Knn<I, D: Metric<I>> {
    k: usize,
    images: Vec<(u8, I)>,
    distance: D,
}

impl<I, D: Metric<I>> Knn<I, D> {
    /// The stored labeled examples, in storage order.
    pub closed spec fn examples(&self) -> Seq<(u8, I)> {
        self.images@
    }

    /// The neighbor count.
    pub closed spec fn spec_k(&self) -> int {
        self.k as int
    }

    /// The distance function.
    pub closed spec fn space_of(&self) -> D {
        self.distance
    }

    /// Every stored example lies in the distance function's domain.
    pub open spec fn wf(&self) -> bool {
        forall|i: int|
            0 <= i < self.examples().len() ==> self.space_of().in_space(
                (#[trigger] self.examples()[i]).1,
            )
    }

    /// The distance from a query to each stored example, in storage order.
    pub open spec fn dists_to(&self, q: I) -> Seq<u64> {
        Seq::new(self.examples().len(), |i: int| self.space_of().spec_distance(q, self.examples()[i].1))
    }

    /// The stored labels, in storage order.
    pub open spec fn labels(&self) -> Seq<u64> {
        Seq::new(self.examples().len(), |i: int| self.examples()[i].0 as u64)
    }

    pub fn new(k: usize, distance: D) -> (r: Knn<I, D>)
        ensures
            r.spec_k() == k,
            r.examples() =~= Seq::<(u8, I)>::empty(),
            r.space_of() == distance,
            r.wf(),
    {
        Knn { k, images: Vec::new(), distance }
    }

    /// Appends one labeled example to the stored set.
    pub fn add_example(&mut self, img: (u8, I))
        requires
            old(self).wf(),
            old(self).space_of().in_space(img.1),
        ensures
            final(self).wf(),
            final(self).examples() =~= old(self).examples().push(img),
            final(self).spec_k() == old(self).spec_k(),
            final(self).space_of() == old(self).space_of(),
    {
        self.images.push(img);
        proof {
            assert forall|i: int| 0 <= i < self.examples().len() implies self.space_of().in_space(
                (#[trigger] self.examples()[i]).1,
            ) by {
                if i < old(self).examples().len() {
                    assert(self.examples()[i] == old(self).examples()[i]);
                } else {
                    assert(self.examples()[i] == img);
                }
            }
        }
    }
}

impl<I, D: Metric<I>> Classifier<I> for Knn<I, D> {
    open spec fn can_train(&self, items: Seq<(u8, I)>) -> bool {
        self.wf() && forall|i: int|
            0 <= i < items.len() ==> self.space_of().in_space((#[trigger] items[i]).1)
    }

    open spec fn trained_from(&self, prev: Self, items: Seq<(u8, I)>) -> bool {
        &&& self.wf()
        &&& self.spec_k() == prev.spec_k()
        &&& self.space_of() == prev.space_of()
        &&& self.examples().len() == prev.examples().len() + items.len()
        &&& forall|i: int|
            0 <= i < prev.examples().len() ==> self.examples()[i] == prev.examples()[i]
        &&& forall|i: int|
            0 <= i < items.len() ==> (#[trigger] self.examples()[prev.examples().len() + i]).0
                == items[i].0 && self.space_of().spec_same(
                self.examples()[prev.examples().len() + i].1,
                items[i].1,
            )
    }

    open spec fn can_classify(&self, example: I) -> bool {
        self.wf() && self.space_of().in_space(example) && 1 <= self.spec_k()
            <= self.examples().len()
    }

    open spec fn classified(&self, example: I, label: u8) -> bool {
        exists|sel: Seq<int>|
            selection_of(sel, self.dists_to(example), self.spec_k()) && label as u64 == vote_of(
                select_labels(self.labels(), sel),
            )
    }

    /// Appends a clone of every given example; repeated calls accumulate.
    fn train(&mut self, training_images: &Vec<(u8, I)>) {
        let n = training_images.len();
        let mut i: usize = 0;
        while i < n
            invariant
                n == training_images@.len(),
                old(self).can_train(training_images@),
                self.wf(),
                self.spec_k() == old(self).spec_k(),
                self.space_of() == old(self).space_of(),
                self.examples().len() == old(self).examples().len() + i,
                0 <= i <= n,
                forall|j: int|
                    0 <= j < old(self).examples().len() ==> self.examples()[j] == old(
                        self,
                    ).examples()[j],
                forall|j: int|
                    0 <= j < i ==> (#[trigger] self.examples()[old(self).examples().len() + j]).0
                        == training_images@[j].0 && self.space_of().spec_same(
                        self.examples()[old(self).examples().len() + j].1,
                        training_images@[j].1,
                    ),
            decreases n - i,
        {
            let img = &training_images[i];
            let copy = self.distance.clone_point(&img.1);
            self.add_example((img.0, copy));
            i = i + 1;
        }
    }

    /// The majority label among the `k` nearest stored examples.
    fn classify(&self, example: &I) -> (r: u8) {
        let n = self.images.len();
        let kk = self.k;
        let ghost dists = self.dists_to(*example);
        // Distances to every stored example, in storage order.
        let mut dv: Vec<u64> = Vec::new();
        let mut i: usize = 0;
        while i < n
            invariant
                n == self.examples().len(),
                self.wf(),
                self.space_of().in_space(*example),
                dists == self.dists_to(*example),
                0 <= i <= n,
                dv@.len() == i,
                forall|j: int| 0 <= j < i ==> dv@[j] == dists[j],
            decreases n - i,
        {
            dv.push(self.distance.distance(example, &self.images[i].1));
            i = i + 1;
        }
        // Pick the k nearest, by repeatedly taking the least unused position
        // under (distance, position) order.
        let mut used: Vec<bool> = Vec::new();
        let mut i2: usize = 0;
        while i2 < n
            invariant
                0 <= i2 <= n,
                used@.len() == i2,
                forall|j: int| 0 <= j < i2 ==> !(#[trigger] used@[j]),
            decreases n - i2,
        {
            used.push(false);
            i2 = i2 + 1;
        }
        let mut chosen: Vec<usize> = Vec::new();
        let ghost mut sel: Seq<int> = Seq::empty();
        let mut round: usize = 0;
        while round < kk
            invariant
                n == self.examples().len(),
                1 <= kk <= n,
                dv@.len() == n,
                dists.len() == n,
                forall|j: int| 0 <= j < n ==> dv@[j] == dists[j],
                used@.len() == n,
                0 <= round <= kk,
                chosen@.len() == round,
                sel.len() == round,
                forall|a: int| 0 <= a < round ==> #[trigger] sel[a] == chosen@[a] as int,
                forall|a: int| 0 <= a < round ==> 0 <= #[trigger] sel[a] < n,
                forall|j: int| 0 <= j < n ==> ((#[trigger] used@[j]) <==> sel.contains(j)),
                forall|a: int, b: int|
                    0 <= a < b < round ==> key_lt(dists, #[trigger] sel[a], #[trigger] sel[b]),
                forall|a: int, j: int|
                    #![trigger sel[a], used@[j]]
                    0 <= a < round && 0 <= j < n && !used@[j] ==> key_lt(dists, sel[a], j),
            decreases kk - round,
        {
            let mut best: usize = n;
            let mut bi: usize = 0;
            while bi < n
                invariant
                    n == dv@.len(),
                    used@.len() == n,
                    dists.len() == n,
                    forall|j: int| 0 <= j < n ==> dv@[j] == dists[j],
                    0 <= bi <= n,
                    best == n || ((best as int) < bi as int && !used@[best as int]),
                    best == n ==> forall|j: int| 0 <= j < bi ==> #[trigger] used@[j],
                    best < n ==> forall|j: int|
                        0 <= j < bi && !(#[trigger] used@[j]) && j != best as int ==> key_lt(
                            dists,
                            best as int,
                            j,
                        ),
                decreases n - bi,
            {
                if !used[bi] {
                    if best == n {
                        best = bi;
                    } else if dv[bi] < dv[best] {
                        best = bi;
                    }
                }
                bi = bi + 1;
            }
            proof {
                if best == n {
                    // Everything used would mean n distinct selected positions
                    // among fewer than n rounds.
                    assert forall|x: int, y: int| 0 <= x < y < sel.len() implies sel[x] != sel[
                        y
                    ] by {
                        assert(key_lt(dists, sel[x], sel[y]));
                    }
                    assert(sel.no_duplicates());
                    assert forall|j: int| 0 <= j < n implies sel.contains(j) by {
                        assert(used@[j]);
                    }
                    assert(vstd::set_lib::set_int_range(0, n as int).subset_of(sel.to_set()));
                    sel.unique_seq_to_set();
                    vstd::set_lib::lemma_int_range(0, n as int);
                    vstd::set_lib::lemma_len_subset(
                        vstd::set_lib::set_int_range(0, n as int),
                        sel.to_set(),
                    );
                    assert(false);
                }
            }
            let ghost old_sel = sel;
            let ghost old_used = used@;
            used.set(best, true);
            chosen.push(best);
            proof {
                sel = sel.push(best as int);
                assert forall|j: int| 0 <= j < n implies ((#[trigger] used@[j]) <==> sel.contains(
                    j,
                )) by {
                    if j == best as int {
                        assert(sel[sel.len() - 1] == j);
                    } else {
                        if old_sel.contains(j) {
                            let w = choose|w: int| 0 <= w < old_sel.len() && old_sel[w] == j;
                            assert(sel[w] == j);
                        }
                        if sel.contains(j) {
                            let w = choose|w: int| 0 <= w < sel.len() && sel[w] == j;
                            assert(old_sel[w] == j);
                        }
                    }
                }
                assert forall|a: int, b: int| 0 <= a < b < sel.len() implies key_lt(
                    dists,
                    #[trigger] sel[a],
                    #[trigger] sel[b],
                ) by {
                    if b == sel.len() - 1 {
                        assert(!old_used[sel[a]] ==> key_lt(dists, sel[a], sel[b]));
                        assert(!old_sel.contains(best as int));
                    }
                }
            }
            round = round + 1;
        }
        // Majority vote among the selected labels, in selection order.
        let ghost picked = select_labels(self.labels(), sel);
        let mut hist = HashHistogram::new();
        let mut a: usize = 0;
        while a < kk
            invariant
                n == self.examples().len(),
                1 <= kk <= n,
                chosen@.len() == kk,
                sel.len() == kk,
                forall|x: int| 0 <= x < kk ==> #[trigger] sel[x] == chosen@[x] as int,
                forall|x: int| 0 <= x < kk ==> 0 <= #[trigger] sel[x] < n,
                picked == select_labels(self.labels(), sel),
                picked.len() == kk,
                0 <= a <= kk,
                hist@ == hist_of(picked.take(a as int)),
                wf_seq(hist@),
                spec_total(hist@) == a,
                forall|e: int| 0 <= e < hist@.len() ==> (#[trigger] hist@[e]).0 < 256,
            decreases kk - a,
        {
            let idx = chosen[a];
            proof {
                assert(sel[a as int] == chosen@[a as int] as int);
                assert((idx as int) < n as int);
            }
            let lab = self.images[idx].0;
            proof {
                assert(picked.take(a as int + 1).drop_last() =~= picked.take(a as int));
                assert(picked[a as int] == self.labels()[sel[a as int]]);
                lemma_bump(hist@, lab as u64);
            }
            hist.bump(lab as u64);
            a = a + 1;
        }
        proof {
            assert(picked.take(kk as int) =~= picked);
            lemma_hist_of(picked);
            lemma_mode_max(hist@);
        }
        let m = hist.mode();
        proof {
            assert(hist@[crate::hash_histogram::mode_idx(hist@)].0 < 256);
            assert(m == vote_of(picked));
            assert forall|a: int, j: int|
                #![trigger sel[a], sel.contains(j)]
                0 <= a < kk as int && 0 <= j < n as int && !sel.contains(j) implies key_lt(
                dists,
                sel[a],
                j,
            ) by {
                assert(!used@[j]);
            }
            assert(selection_of(sel, dists, kk as int));
            assert((m as u8) as u64 == vote_of(select_labels(self.labels(), sel)));
        }
        m as u8
    }

    /// Classifies every query and tallies, per true label, whether the answer
    /// matched it.
    fn test(&self, testing_images: &Vec<(u8, I)>) -> (cm: ConfusionMatrix) {
        let n = testing_images.len();
        let mut result = ConfusionMatrix::new();
        let ghost mut cs: Seq<u8> = Seq::empty();
        let mut i: usize = 0;
        while i < n
            invariant
                n == testing_images@.len(),
                forall|j: int|
                    0 <= j < n ==> self.can_classify((#[trigger] testing_images@[j]).1),
                0 <= i <= n,
                cs.len() == i,
                forall|j: int|
                    0 <= j < i ==> self.classified((#[trigger] testing_images@[j]).1, cs[j]),
                result.wf(),
                (result.rights(), result.wrongs()) == spec_record_all(
                    Seq::<(u64, u64)>::empty(),
                    Seq::<(u64, u64)>::empty(),
                    testing_images@.take(i as int),
                    cs,
                ),
            decreases n - i,
        {
            let c = self.classify(&testing_images[i].1);
            proof {
                lemma_record_all_wf(testing_images@.take(i as int), cs);
            }
            result.record(testing_images[i].0, c);
            proof {
                let prior = cs;
                cs = cs.push(c);
                assert(cs.drop_last() =~= prior);
                assert(testing_images@.take(i as int + 1).drop_last() =~= testing_images@.take(
                    i as int,
                ));
                assert(testing_images@.take(i as int + 1).last() == testing_images@[i as int]);
            }
            i = i + 1;
        }
        proof {
            assert(testing_images@.take(n as int) =~= testing_images@);
        }
        result
    }
}

/// Agreement of two selections up to a position: the contract's selection is
/// determined position by position.
proof fn lemma_sel_agree(dists: Seq<u64>, k: int, s1: Seq<int>, s2: Seq<int>, a: int)
    requires
        selection_of(s1, dists, k),
        selection_of(s2, dists, k),
        0 <= a < k,
    ensures
        forall|x: int| 0 <= x <= a ==> s1[x] == s2[x],
    decreases a,
{
    if a > 0 {
        lemma_sel_agree(dists, k, s1, s2, a - 1);
    }
    if s1[a] != s2[a] {
        if s2.contains(s1[a]) {
            let b = choose|b: int| 0 <= b < s2.len() && s2[b] == s1[a];
            if b < a {
                assert(s1[b] == s2[b]);
                assert(key_lt(dists, s1[b], s1[a]));
                assert(false);
            } else {
                assert(b > a);
                assert(key_lt(dists, s2[a], s2[b]));
            }
        } else {
            assert(key_lt(dists, s2[a], s1[a]));
        }
        if s1.contains(s2[a]) {
            let c = choose|c: int| 0 <= c < s1.len() && s1[c] == s2[a];
            if c < a {
                assert(s2[c] == s1[c]);
                assert(key_lt(dists, s2[c], s2[a]));
                assert(false);
            } else {
                assert(c > a);
                assert(key_lt(dists, s1[a], s1[c]));
            }
        } else {
            assert(key_lt(dists, s1[a], s2[a]));
        }
        assert(false);
    }
}

/// Two selections of the same `k` nearest positions coincide: the selection
/// `classified` speaks of is unique, so the contract pins the label.
pub proof fn lemma_selection_unique(dists: Seq<u64>, k: int, s1: Seq<int>, s2: Seq<int>)
    requires
        selection_of(s1, dists, k),
        selection_of(s2, dists, k),
    ensures
        s1 =~= s2,
{
    assert forall|a: int| 0 <= a < k implies s1[a] == s2[a] by {
        lemma_sel_agree(dists, k, s1, s2, a);
    }
}

/// A vote over a single label elects that label.
proof fn lemma_vote_singleton(l: u64)
    ensures
        vote_of(seq![l]) == l,
{
    let s = seq![l];
    assert(s.drop_last() =~= Seq::<u64>::empty());
    assert(hist_of(Seq::<u64>::empty()) =~= Seq::<(u64, u64)>::empty());
    assert(!has_key(Seq::<(u64, u64)>::empty(), l));
    assert(hist_of(s) =~= seq![(l, 1u64)]);
}

/// With a single neighbor and a query at distance zero from a stored example
/// that no earlier stored example matches, the classification under
/// `classified` is that example's label: the selection must pick exactly that
/// example, and a one-vote election returns its label.
pub proof fn lemma_single_exact_match(dists: Seq<u64>, labels: Seq<u64>, sel: Seq<int>, i: int)
    requires
        labels.len() == dists.len(),
        selection_of(sel, dists, 1),
        0 <= i < dists.len(),
        dists[i] == 0,
        forall|j: int| 0 <= j < i ==> #[trigger] dists[j] > 0,
    ensures
        vote_of(select_labels(labels, sel)) == labels[i],
{
    let s0 = sel[0];
    if s0 != i {
        if sel.contains(i) {
            let w = choose|w: int| 0 <= w < sel.len() && sel[w] == i;
            assert(w == 0);
            assert(false);
        }
        assert(key_lt(dists, sel[0], i));
        assert(dists[s0] == 0 && s0 < i);
        assert(false);
    }
    assert(select_labels(labels, sel) =~= seq![labels[i]]);
    lemma_vote_singleton(labels[i]);
}

/// A strictly increasing sequence starts no lower than the identity.
proof fn lemma_incr_ge(sel: Seq<int>, a: int)
    requires
        forall|x: int, y: int| 0 <= x < y < sel.len() ==> #[trigger] sel[x] < #[trigger] sel[y],
        forall|x: int| 0 <= x < sel.len() ==> #[trigger] sel[x] >= 0,
        0 <= a < sel.len(),
    ensures
        sel[a] >= a,
    decreases a,
{
    if a > 0 {
        lemma_incr_ge(sel, a - 1);
    }
}

/// A strictly increasing sequence bounded below its length is the identity
/// from above.
proof fn lemma_incr_le(sel: Seq<int>, n: int, a: int)
    requires
        sel.len() == n,
        forall|x: int, y: int| 0 <= x < y < n ==> #[trigger] sel[x] < #[trigger] sel[y],
        forall|x: int| 0 <= x < n ==> #[trigger] sel[x] < n,
        0 <= a < n,
    ensures
        sel[a] <= a,
    decreases n - a,
{
    if a < n - 1 {
        lemma_incr_le(sel, n, a + 1);
    }
}

/// With every distance tied and as many neighbors as stored examples, the
/// selection is the whole stored set in storage order, so the classification
/// under `classified` equals the histogram mode over the full label set.
pub proof fn lemma_all_tied(dists: Seq<u64>, labels: Seq<u64>, sel: Seq<int>)
    requires
        labels.len() == dists.len(),
        selection_of(sel, dists, dists.len() as int),
        forall|i: int| 0 <= i < dists.len() ==> #[trigger] dists[i] == dists[0],
    ensures
        select_labels(labels, sel) =~= labels,
        vote_of(select_labels(labels, sel)) == vote_of(labels),
{
    let n = dists.len() as int;
    assert forall|a: int, b: int| 0 <= a < b < n implies #[trigger] sel[a] < #[trigger] sel[b] by {
        assert(key_lt(dists, sel[a], sel[b]));
        assert(dists[sel[a]] == dists[0] && dists[sel[b]] == dists[0]);
    }
    assert forall|a: int| 0 <= a < n implies #[trigger] sel[a] == a by {
        lemma_incr_ge(sel, a);
        lemma_incr_le(sel, n, a);
    }
    assert(select_labels(labels, sel) =~= labels);
}

} // verus!
