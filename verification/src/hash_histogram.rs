//! A histogram: a mapping from a key to an occurrence count.  Entries are kept
//! in the order in which their keys were first bumped, which makes `mode` (and
//! its tie-break: the earliest-bumped key among those of maximal count)
//! deterministic for a fixed bump order.

use vstd::prelude::*;

verus! {

/// True iff no key occurs twice.
pub open spec fn keys_unique(s: Seq<(u64, u64)>) -> bool {
    forall|i: int, j: int| 0 <= i < j < s.len() ==> s[i].0 != s[j].0
}

/// True iff every stored count is at least one.
pub open spec fn counts_positive(s: Seq<(u64, u64)>) -> bool {
    forall|i: int| 0 <= i < s.len() ==> (#[trigger] s[i]).1 >= 1
}

/// Sum of all stored counts: the number of bumps recorded.
pub open spec fn spec_total(s: Seq<(u64, u64)>) -> int
    decreases s.len(),
{
    if s.len() == 0 {
        0
    } else {
        spec_total(s.drop_last()) + s.last().1
    }
}

/// True iff the key has an entry.
pub open spec fn has_key(s: Seq<(u64, u64)>, k: u64) -> bool
    decreases s.len(),
{
    if s.len() == 0 {
        false
    } else {
        s.last().0 == k || has_key(s.drop_last(), k)
    }
}

/// The index of the key's entry (meaningful only when `has_key`).
pub open spec fn key_index(s: Seq<(u64, u64)>, k: u64) -> int
    decreases s.len(),
{
    if s.len() == 0 {
        0
    } else if s.last().0 == k {
        s.len() - 1
    } else {
        key_index(s.drop_last(), k)
    }
}

/// The count stored for a key; zero for a key with no entry.
pub open spec fn spec_get(s: Seq<(u64, u64)>, k: u64) -> u64
    decreases s.len(),
{
    if s.len() == 0 {
        0
    } else if s.last().0 == k {
        s.last().1
    } else {
        spec_get(s.drop_last(), k)
    }
}

/// One bump: raise the key's count by one, creating an entry with count one
/// for a key never bumped before.
pub open spec fn spec_bump(s: Seq<(u64, u64)>, k: u64) -> Seq<(u64, u64)> {
    if has_key(s, k) {
        s.update(key_index(s, k), (k, (spec_get(s, k) + 1) as u64))
    } else {
        s.push((k, 1u64))
    }
}

/// Well-formed histogram contents: unique keys, positive counts, and a total
/// that fits the count type.
pub open spec fn wf_seq(s: Seq<(u64, u64)>) -> bool {
    keys_unique(s) && counts_positive(s) && spec_total(s) <= u64::MAX
}

/// The index scanned first-to-last of an entry of maximal count, keeping the
/// earlier entry on ties.
pub open spec fn mode_idx(s: Seq<(u64, u64)>) -> int
    decreases s.len(),
{
    if s.len() <= 1 {
        0
    } else {
        let b = mode_idx(s.drop_last());
        if s.last().1 > s[b].1 {
            s.len() - 1
        } else {
            b
        }
    }
}

/// The key returned by `mode`: the earliest-bumped key of maximal count.
pub open spec fn spec_mode(s: Seq<(u64, u64)>) -> u64 {
    s[mode_idx(s)].0
}

/// Where the key sits, what it counts, and that `has_key` matches membership.
pub proof fn lemma_key_facts(s: Seq<(u64, u64)>, k: u64)
    ensures
        has_key(s, k) <==> exists|i: int| 0 <= i < s.len() && (#[trigger] s[i]).0 == k,
        has_key(s, k) ==> 0 <= key_index(s, k) < s.len() && s[key_index(s, k)].0 == k,
        has_key(s, k) ==> spec_get(s, k) == s[key_index(s, k)].1,
        !has_key(s, k) ==> spec_get(s, k) == 0,
        keys_unique(s) ==> forall|i: int|
            0 <= i < s.len() && (#[trigger] s[i]).0 == k ==> i == key_index(s, k),
    decreases s.len(),
{
    if s.len() > 0 {
        lemma_key_facts(s.drop_last(), k);
        if s.last().0 == k {
            assert(s[s.len() - 1].0 == k);
        } else {
            if has_key(s.drop_last(), k) {
                let i = key_index(s.drop_last(), k);
                assert(s.drop_last()[i] == s[i]);
            }
            assert forall|i: int| 0 <= i < s.len() && (#[trigger] s[i]).0 == k implies has_key(
                s,
                k,
            ) by {
                assert(s.drop_last()[i] == s[i]);
            }
        }
    }
}

/// Every count is at most the total.
pub proof fn lemma_get_le_total(s: Seq<(u64, u64)>, k: u64)
    requires
        counts_positive(s),
    ensures
        spec_get(s, k) <= spec_total(s),
        spec_total(s) >= 0,
    decreases s.len(),
{
    if s.len() > 0 {
        lemma_get_le_total(s.drop_last(), k);
    }
}

/// What one bump does: the bumped key's count rises by one, every other
/// count is unchanged, well-formedness is kept, and the total rises by one.
pub proof fn lemma_bump(s: Seq<(u64, u64)>, k: u64)
    requires
        wf_seq(s),
        spec_total(s) < u64::MAX,
    ensures
        wf_seq(spec_bump(s, k)),
        spec_total(spec_bump(s, k)) == spec_total(s) + 1,
        spec_get(spec_bump(s, k), k) == spec_get(s, k) + 1,
        forall|k2: u64| k2 != k ==> spec_get(spec_bump(s, k), k2) == spec_get(s, k2),
        spec_bump(s, k).len() == s.len() + (if has_key(s, k) {
            0int
        } else {
            1
        }),
        forall|i: int|
            0 <= i < spec_bump(s, k).len() ==> (#[trigger] spec_bump(s, k)[i]).0 == k || (0 <= i
                < s.len() && spec_bump(s, k)[i].0 == s[i].0),
{
    lemma_key_facts(s, k);
    lemma_get_le_total(s, k);
    let t = spec_bump(s, k);
    if has_key(s, k) {
        let i = key_index(s, k);
        lemma_update_total(s, i, (k, (spec_get(s, k) + 1) as u64));
        assert forall|k2: u64| spec_get(t, k2) == (if k2 == k {
            (spec_get(s, k) + 1) as u64
        } else {
            spec_get(s, k2)
        }) by {
            lemma_get_after_update(s, i, (k, (spec_get(s, k) + 1) as u64), k2);
        }
    } else {
        assert(t.drop_last() =~= s);
        assert forall|k2: u64| k2 != k implies spec_get(t, k2) == spec_get(s, k2) by {}
        lemma_key_facts(t, k);
        assert forall|i: int, j: int| 0 <= i < j < t.len() implies t[i].0 != t[j].0 by {
            if j == t.len() - 1 {
                lemma_key_facts(s, k);
                assert(s[i] == t[i]);
                if s[i].0 == k {
                    assert(has_key(s, k));
                }
            }
        }
    }
}

/// Updating one entry while keeping its key changes only that key's count.
proof fn lemma_get_after_update(s: Seq<(u64, u64)>, i: int, v: (u64, u64), k2: u64)
    requires
        keys_unique(s),
        0 <= i < s.len(),
        s[i].0 == v.0,
    ensures
        spec_get(s.update(i, v), k2) == (if k2 == v.0 {
            v.1
        } else {
            spec_get(s, k2)
        }),
    decreases s.len(),
{
    let t = s.update(i, v);
    lemma_key_facts(s, k2);
    lemma_key_facts(t, k2);
    if s.len() > 0 {
        if i == s.len() - 1 {
            if k2 != v.0 {
                assert(t.drop_last() =~= s.drop_last());
                if s.last().0 == k2 {
                    assert(has_key(s, k2));
                }
            }
        } else {
            assert(t.drop_last() =~= s.drop_last().update(i, v));
            lemma_get_after_update(s.drop_last(), i, v, k2);
            assert(t.last() == s.last());
            if k2 == v.0 && s.last().0 == k2 {
                assert(s[i].0 == s[s.len() - 1].0);
                assert(false);
            }
        }
    }
}

/// Updating one entry with an equal-key pair keeps the total consistent.
proof fn lemma_update_total(s: Seq<(u64, u64)>, i: int, v: (u64, u64))
    requires
        0 <= i < s.len(),
    ensures
        spec_total(s.update(i, v)) == spec_total(s) - s[i].1 + v.1,
        keys_unique(s) && s[i].0 == v.0 ==> keys_unique(s.update(i, v)),
        counts_positive(s) && v.1 >= 1 ==> counts_positive(s.update(i, v)),
    decreases s.len(),
{
    let t = s.update(i, v);
    if i == s.len() - 1 {
        assert(t.drop_last() =~= s.drop_last());
    } else {
        assert(t.drop_last() =~= s.drop_last().update(i, v));
        lemma_update_total(s.drop_last(), i, v);
    }
}

/// The mode entry exists, carries a maximal count, and every earlier entry
/// has a strictly smaller count.
pub proof fn lemma_mode_max(s: Seq<(u64, u64)>)
    requires
        s.len() > 0,
    ensures
        0 <= mode_idx(s) < s.len(),
        forall|j: int| 0 <= j < s.len() ==> (#[trigger] s[j]).1 <= s[mode_idx(s)].1,
        forall|j: int| 0 <= j < mode_idx(s) ==> (#[trigger] s[j]).1 < s[mode_idx(s)].1,
    decreases s.len(),
{
    if s.len() > 1 {
        lemma_mode_max(s.drop_last());
        assert forall|j: int| 0 <= j < s.len() - 1 implies s.drop_last()[j] == s[j] by {}
    }
}

/// A histogram over 64-bit keys.
pub struct HashHistogram {
    pairs: Vec<(u64, u64)>,
}

impl View for HashHistogram {
    type V = Seq<(u64, u64)>;

    closed spec fn view(&self) -> Seq<(u64, u64)> {
        self.pairs@
    }
}

impl HashHistogram {
    pub fn new() -> (r: HashHistogram)
        ensures
            r@ =~= Seq::<(u64, u64)>::empty(),
            wf_seq(r@),
    {
        HashHistogram { pairs: Vec::new() }
    }

    /// The count recorded for a key; a key never bumped reads as zero.
    pub fn get(&self, key: u64) -> (r: u64)
        requires
            wf_seq(self@),
        ensures
            r == spec_get(self@, key),
    {
        proof {
            lemma_key_facts(self@, key);
        }
        let n = self.pairs.len();
        let mut i: usize = 0;
        while i < n
            invariant
                wf_seq(self@),
                n == self@.len(),
                0 <= i <= n,
                forall|j: int| 0 <= j < i ==> (#[trigger] self@[j]).0 != key,
            decreases n - i,
        {
            if self.pairs[i].0 == key {
                proof {
                    lemma_key_facts(self@, key);
                }
                return self.pairs[i].1;
            }
            i = i + 1;
        }
        proof {
            lemma_key_facts(self@, key);
        }
        0
    }

    /// Raises the key's count by one, creating the entry if it is absent.
    pub fn bump(&mut self, key: u64)
        requires
            wf_seq(old(self)@),
            spec_total(old(self)@) < u64::MAX,
        ensures
            final(self)@ == spec_bump(old(self)@, key),
            wf_seq(final(self)@),
    {
        let n = self.pairs.len();
        let mut i: usize = 0;
        while i < n
            invariant
                wf_seq(self@),
                spec_total(self@) < u64::MAX,
                self@ == old(self)@,
                n == self@.len(),
                0 <= i <= n,
                forall|j: int| 0 <= j < i ==> (#[trigger] self@[j]).0 != key,
            decreases n - i,
        {
            let (k, c) = self.pairs[i];
            if k == key {
                proof {
                    assert(self@[i as int].0 == key);
                    lemma_key_facts(self@, key);
                    assert(has_key(self@, key));
                    assert(i as int == key_index(self@, key));
                    assert(c == spec_get(self@, key));
                    lemma_get_le_total(self@, key);
                    lemma_bump(self@, key);
                }
                self.pairs.set(i, (key, c + 1));
                proof {
                    assert(self@ =~= spec_bump(old(self)@, key));
                }
                return ;
            }
            i = i + 1;
        }
        proof {
            lemma_bump(self@, key);
        }
        proof {
            lemma_key_facts(self@, key);
            if has_key(self@, key) {
                let j = key_index(self@, key);
                assert(self@[j].0 == key);
                assert(false);
            }
        }
        self.pairs.push((key, 1));
    }

    /// All keys ever bumped, in first-bump order.
    pub fn all_labels(&self) -> (r: Vec<u64>)
        ensures
            r@.len() == self@.len(),
            forall|i: int| 0 <= i < r@.len() ==> r@[i] == (#[trigger] self@[i]).0,
    {
        let n = self.pairs.len();
        let mut r: Vec<u64> = Vec::new();
        let mut i: usize = 0;
        while i < n
            invariant
                n == self@.len(),
                0 <= i <= n,
                r@.len() == i,
                forall|j: int| 0 <= j < i ==> r@[j] == (#[trigger] self@[j]).0,
            decreases n - i,
        {
            r.push(self.pairs[i].0);
            i = i + 1;
        }
        r
    }

    /// The key with the maximum count; on a tie, the earliest-bumped such key.
    /// The histogram must not be empty.
    pub fn mode(&self) -> (r: u64)
        requires
            self@.len() > 0,
        ensures
            r == spec_mode(self@),
    {
        let n = self.pairs.len();
        let mut best: usize = 0;
        let mut i: usize = 1;
        while i < n
            invariant
                n == self@.len(),
                n > 0,
                1 <= i <= n,
                0 <= best < i,
                best as int == mode_idx(self@.take(i as int)),
            decreases n - i,
        {
            proof {
                assert(self@.take(i as int + 1).drop_last() =~= self@.take(i as int));
            }
            if self.pairs[i].1 > self.pairs[best].1 {
                best = i;
            }
            i = i + 1;
        }
        proof {
            assert(self@.take(n as int) =~= self@);
        }
        self.pairs[best].0
    }

    /// How many bumps the histogram has recorded in all.
    pub fn total(&self) -> (r: u64)
        requires
            wf_seq(self@),
        ensures
            r == spec_total(self@),
    {
        let n = self.pairs.len();
        let mut t: u64 = 0;
        let mut i: usize = 0;
        proof {
            lemma_get_le_total(self@, 0);
        }
        while i < n
            invariant
                wf_seq(self@),
                n == self@.len(),
                0 <= i <= n,
                t == spec_total(self@.take(i as int)),
                t <= spec_total(self@),
            decreases n - i,
        {
            proof {
                assert(self@.take(i as int + 1).drop_last() =~= self@.take(i as int));
                lemma_total_prefix(self@, i as int + 1);
            }
            t = t + self.pairs[i].1;
            i = i + 1;
        }
        proof {
            assert(self@.take(n as int) =~= self@);
        }
        t
    }
}

/// The total over a prefix never exceeds the total (counts are nonnegative).
proof fn lemma_total_prefix(s: Seq<(u64, u64)>, i: int)
    requires
        0 <= i <= s.len(),
    ensures
        spec_total(s.take(i)) <= spec_total(s),
    decreases s.len() - i,
{
    if i < s.len() {
        lemma_total_prefix(s, i + 1);
        assert(s.take(i + 1).drop_last() =~= s.take(i));
    } else {
        assert(s.take(i) =~= s);
    }
}

/// Bumping a key `n` times raises its count by `n` and leaves every other
/// key's count unchanged.
pub open spec fn bump_n(s: Seq<(u64, u64)>, k: u64, n: nat) -> Seq<(u64, u64)>
    decreases n,
{
    if n == 0 {
        s
    } else {
        spec_bump(bump_n(s, k, (n - 1) as nat), k)
    }
}

/// Repeated bumps add up: after `n` bumps of `k`, the count of `k` has risen
/// by exactly `n`, and no other count has moved.
pub proof fn lemma_bump_n(s: Seq<(u64, u64)>, k: u64, n: nat)
    requires
        wf_seq(s),
        spec_total(s) + n <= u64::MAX,
    ensures
        wf_seq(bump_n(s, k, n)),
        spec_total(bump_n(s, k, n)) == spec_total(s) + n,
        spec_get(bump_n(s, k, n), k) == spec_get(s, k) + n,
        forall|k2: u64| k2 != k ==> spec_get(bump_n(s, k, n), k2) == spec_get(s, k2),
    decreases n,
{
    lemma_get_le_total(s, k);
    if n > 0 {
        lemma_bump_n(s, k, (n - 1) as nat);
        lemma_get_le_total(bump_n(s, k, (n - 1) as nat), k);
        lemma_bump(bump_n(s, k, (n - 1) as nat), k);
    }
}


} // verus!
