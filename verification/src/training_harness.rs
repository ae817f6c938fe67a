//! The supervised-learning harness: a confusion matrix tallying correct and
//! incorrect classifications per true label, and the interface a classifier
//! offers to it.

use vstd::prelude::*;
use vstd::string::StringExecFns;
use crate::hash_histogram::{
    HashHistogram, spec_bump, spec_get, spec_total, wf_seq, lemma_bump, lemma_get_le_total,
};

verus! {

/// Per-label tallies of right and wrong classifications.
pub struct ConfusionMatrix {
    label_2_right: HashHistogram,
    label_2_wrong: HashHistogram,
}

/// What one recorded classification does to the two tallies.
pub open spec fn spec_record(
    rights: Seq<(u64, u64)>,
    wrongs: Seq<(u64, u64)>,
    img_label: u8,
    classification: u8,
) -> (Seq<(u64, u64)>, Seq<(u64, u64)>) {
    if classification == img_label {
        (spec_bump(rights, img_label as u64), wrongs)
    } else {
        (rights, spec_bump(wrongs, img_label as u64))
    }
}

/// The two tallies after recording a whole run of classifications, one
/// classification `cs[i]` for each labeled item `items[i]`.
pub open spec fn spec_record_all<T>(
    rights: Seq<(u64, u64)>,
    wrongs: Seq<(u64, u64)>,
    items: Seq<(u8, T)>,
    cs: Seq<u8>,
) -> (Seq<(u64, u64)>, Seq<(u64, u64)>)
    decreases items.len(),
{
    if items.len() == 0 {
        (rights, wrongs)
    } else {
        let prev = spec_record_all(rights, wrongs, items.drop_last(), cs.drop_last());
        spec_record(prev.0, prev.1, items.last().0, cs.last())
    }
}

impl ConfusionMatrix {
    /// The per-label counts of correct classifications.
    pub closed spec fn rights(&self) -> Seq<(u64, u64)> {
        self.label_2_right@
    }

    /// The per-label counts of incorrect classifications.
    pub closed spec fn wrongs(&self) -> Seq<(u64, u64)> {
        self.label_2_wrong@
    }

    pub open spec fn wf(&self) -> bool {
        wf_seq(self.rights()) && wf_seq(self.wrongs()) && spec_total(self.rights()) + spec_total(
            self.wrongs(),
        ) <= u64::MAX
    }

    pub fn new() -> (r: ConfusionMatrix)
        ensures
            r.wf(),
            r.rights() =~= Seq::<(u64, u64)>::empty(),
            r.wrongs() =~= Seq::<(u64, u64)>::empty(),
    {
        ConfusionMatrix { label_2_right: HashHistogram::new(), label_2_wrong: HashHistogram::new() }
    }

    /// Tallies one classification under the item's true label: a hit if the
    /// classification equals the label, a miss otherwise.
    pub fn record(&mut self, img_label: u8, classification: u8)
        requires
            old(self).wf(),
            spec_total(old(self).rights()) + spec_total(old(self).wrongs()) < u64::MAX,
        ensures
            final(self).wf(),
            (final(self).rights(), final(self).wrongs()) == spec_record(
                old(self).rights(),
                old(self).wrongs(),
                img_label,
                classification,
            ),
    {
        proof {
            lemma_get_le_total(self.rights(), 0);
            lemma_get_le_total(self.wrongs(), 0);
        }
        if classification == img_label {
            proof {
                lemma_bump(self.rights(), img_label as u64);
            }
            self.label_2_right.bump(img_label as u64);
        } else {
            proof {
                lemma_bump(self.wrongs(), img_label as u64);
            }
            self.label_2_wrong.bump(img_label as u64);
        }
    }

    /// How often the given true label was classified correctly.
    pub fn correct_count(&self, label: u8) -> (r: u64)
        requires
            self.wf(),
        ensures
            r == spec_get(self.rights(), label as u64),
    {
        self.label_2_right.get(label as u64)
    }

    /// How often the given true label was classified incorrectly.
    pub fn incorrect_count(&self, label: u8) -> (r: u64)
        requires
            self.wf(),
        ensures
            r == spec_get(self.wrongs(), label as u64),
    {
        self.label_2_wrong.get(label as u64)
    }

    /// The error rate as a fraction: how many classifications went wrong, out
    /// of how many were recorded in all.
    pub fn error_counts(&self) -> (r: (u64, u64))
        requires
            self.wf(),
        ensures
            r.0 == spec_total(self.wrongs()),
            r.1 == spec_total(self.rights()) + spec_total(self.wrongs()),
    {
        proof {
            lemma_get_le_total(self.rights(), 0);
            lemma_get_le_total(self.wrongs(), 0);
        }
        let wrong = self.label_2_wrong.total();
        let right = self.label_2_right.total();
        (wrong, right + wrong)
    }

    /// Every label that was ever recorded, in ascending order.
    pub fn all_labels(&self) -> (r: Vec<u8>)
        requires
            self.wf(),
        ensures
            forall|a: int, b: int| 0 <= a < b < r@.len() ==> r@[a] < r@[b],
            forall|l: u8|
                r@.contains(l) <==> (spec_get(self.rights(), l as u64) > 0 || spec_get(
                    self.wrongs(),
                    l as u64,
                ) > 0),
            r@ == present_labels(self.rights(), self.wrongs()),
    {
        let mut r: Vec<u8> = Vec::new();
        let mut l: u16 = 0;
        while l < 256
            invariant
                self.wf(),
                0 <= l <= 256,
                forall|a: int, b: int| 0 <= a < b < r@.len() ==> r@[a] < r@[b],
                forall|a: int| 0 <= a < r@.len() ==> (#[trigger] r@[a]) < l,
                forall|x: u8|
                    (x as int) < l ==> (r@.contains(x) <==> (spec_get(self.rights(), x as u64) > 0
                        || spec_get(self.wrongs(), x as u64) > 0)),
                present_labels(self.rights(), self.wrongs()) == r@ + labels_from(
                    self.rights(),
                    self.wrongs(),
                    l as int,
                ),
            decreases 256 - l,
        {
            let lab = l as u8;
            let ghost old_r = r@;
            if self.label_2_right.get(lab as u64) > 0 || self.label_2_wrong.get(lab as u64) > 0 {
                r.push(lab);
            }
            proof {
                assert(labels_from(self.rights(), self.wrongs(), l as int) == (if spec_get(
                    self.rights(),
                    lab as u64,
                ) > 0 || spec_get(self.wrongs(), lab as u64) > 0 {
                    seq![lab]
                } else {
                    Seq::<u8>::empty()
                }) + labels_from(self.rights(), self.wrongs(), l as int + 1));
                if spec_get(self.rights(), lab as u64) > 0 || spec_get(self.wrongs(), lab as u64)
                    > 0 {
                    assert(r@ =~= old_r + seq![lab]);
                    assert((old_r + seq![lab]) + labels_from(
                        self.rights(),
                        self.wrongs(),
                        l as int + 1,
                    ) =~= old_r + (seq![lab] + labels_from(
                        self.rights(),
                        self.wrongs(),
                        l as int + 1,
                    )));
                } else {
                    assert(Seq::<u8>::empty() + labels_from(
                        self.rights(),
                        self.wrongs(),
                        l as int + 1,
                    ) =~= labels_from(self.rights(), self.wrongs(), l as int + 1));
                }
                assert forall|x: u8| (x as int) < l as int + 1 implies (r@.contains(x) <==> (
                spec_get(self.rights(), x as u64) > 0 || spec_get(self.wrongs(), x as u64)
                    > 0)) by {
                    if (x as int) < l as int {
                        if old_r.contains(x) {
                            let w = choose|w: int| 0 <= w < old_r.len() && old_r[w] == x;
                            assert(r@[w] == x);
                        }
                        if r@.contains(x) {
                            let w = choose|w: int| 0 <= w < r@.len() && r@[w] == x;
                            if w < old_r.len() {
                                assert(old_r[w] == x);
                            }
                        }
                    } else {
                        if r@.contains(x) {
                            let w = choose|w: int| 0 <= w < r@.len() && r@[w] == x;
                            if w < old_r.len() {
                                assert(old_r[w] == x);
                            }
                        }
                        if spec_get(self.rights(), x as u64) > 0 || spec_get(
                            self.wrongs(),
                            x as u64,
                        ) > 0 {
                            assert(r@[r@.len() - 1] == x);
                        }
                    }
                }
            }
            l = l + 1;
        }
        proof {
            assert(labels_from(self.rights(), self.wrongs(), 256) =~= Seq::<u8>::empty());
            assert(r@ + Seq::<u8>::empty() =~= r@);
        }
        r
    }
}

/// A supervised classifier: train on labeled examples, classify one example,
/// and test a whole labeled set into a confusion matrix.  The three spec
/// functions say on which inputs the operations are defined and what a
/// classification means for this classifier.
pub trait Classifier<T>: Sized {
    /// When a training set can be absorbed.
    spec fn can_train(&self, items: Seq<(u8, T)>) -> bool;

    /// What training on `items` turns the previous classifier state into.
    spec fn trained_from(&self, prev: Self, items: Seq<(u8, T)>) -> bool;

    /// When an example can be classified.
    spec fn can_classify(&self, example: T) -> bool;

    /// What it means for `label` to be this classifier's answer on `example`.
    spec fn classified(&self, example: T, label: u8) -> bool;

    /// Absorbs the labeled examples; repeated calls accumulate.
    fn train(&mut self, training_images: &Vec<(u8, T)>)
        requires
            old(self).can_train(training_images@),
        ensures
            final(self).trained_from(*old(self), training_images@),
    ;

    fn classify(&self, example: &T) -> (r: u8)
        requires
            self.can_classify(*example),
        ensures
            self.classified(*example, r),
    ;

    /// Classifies every query and tallies, per true label, whether the answer
    /// matched it.
    fn test(&self, testing_images: &Vec<(u8, T)>) -> (cm: ConfusionMatrix)
        requires
            forall|i: int|
                0 <= i < testing_images@.len() ==> self.can_classify(
                    (#[trigger] testing_images@[i]).1,
                ),
        ensures
            cm.wf(),
            exists|cs: Seq<u8>|
                cs.len() == testing_images@.len() && (forall|i: int|
                    0 <= i < cs.len() ==> self.classified(
                        (#[trigger] testing_images@[i]).1,
                        cs[i],
                    )) && (cm.rights(), cm.wrongs()) == spec_record_all(
                    Seq::<(u64, u64)>::empty(),
                    Seq::<(u64, u64)>::empty(),
                    testing_images@,
                    cs,
                ),
    ;
}

/// Recording runs never shrink well-formedness: the totals after recording a
/// run are the number of hits and misses in it, so they stay within bounds.
pub proof fn lemma_record_all_wf<T>(items: Seq<(u8, T)>, cs: Seq<u8>)
    requires
        items.len() <= u64::MAX,
        cs.len() == items.len(),
    ensures
        wf_seq(spec_record_all(Seq::<(u64, u64)>::empty(), Seq::<(u64, u64)>::empty(), items, cs).0),
        wf_seq(spec_record_all(Seq::<(u64, u64)>::empty(), Seq::<(u64, u64)>::empty(), items, cs).1),
        spec_total(
            spec_record_all(Seq::<(u64, u64)>::empty(), Seq::<(u64, u64)>::empty(), items, cs).0,
        ) + spec_total(
            spec_record_all(Seq::<(u64, u64)>::empty(), Seq::<(u64, u64)>::empty(), items, cs).1,
        ) == items.len(),
    decreases items.len(),
{
    if items.len() > 0 {
        lemma_record_all_wf(items.drop_last(), cs.drop_last());
        let prev = spec_record_all(
            Seq::<(u64, u64)>::empty(),
            Seq::<(u64, u64)>::empty(),
            items.drop_last(),
            cs.drop_last(),
        );
        lemma_get_le_total(prev.0, 0);
        lemma_get_le_total(prev.1, 0);
        if cs.last() == items.last().0 {
            lemma_bump(prev.0, items.last().0 as u64);
        } else {
            lemma_bump(prev.1, items.last().0 as u64);
        }
    }
}


/// The character of one decimal digit.
pub open spec fn digit_char(d: int) -> char {
    if d == 0 {
        '0'
    } else if d == 1 {
        '1'
    } else if d == 2 {
        '2'
    } else if d == 3 {
        '3'
    } else if d == 4 {
        '4'
    } else if d == 5 {
        '5'
    } else if d == 6 {
        '6'
    } else if d == 7 {
        '7'
    } else if d == 8 {
        '8'
    } else {
        '9'
    }
}

/// The decimal digits of a number, most significant first.
pub open spec fn spec_digits(n: int) -> Seq<char>
    decreases n,
{
    if n < 10 {
        seq![digit_char(n)]
    } else {
        spec_digits(n / 10).push(digit_char(n % 10))
    }
}

/// Appends the decimal digits of `n`.
fn push_decimal(s: &mut String, n: u64)
    ensures
        final(s)@ == old(s)@ + spec_digits(n as int),
    decreases n,
{
    if n >= 10 {
        push_decimal(s, n / 10);
    }
    let d = n % 10;
    let c: &str = if d == 0 {
        "0"
    } else if d == 1 {
        "1"
    } else if d == 2 {
        "2"
    } else if d == 3 {
        "3"
    } else if d == 4 {
        "4"
    } else if d == 5 {
        "5"
    } else if d == 6 {
        "6"
    } else if d == 7 {
        "7"
    } else if d == 8 {
        "8"
    } else {
        "9"
    };
    proof {
        reveal_strlit("0");
        reveal_strlit("1");
        reveal_strlit("2");
        reveal_strlit("3");
        reveal_strlit("4");
        reveal_strlit("5");
        reveal_strlit("6");
        reveal_strlit("7");
        reveal_strlit("8");
        reveal_strlit("9");
        assert(c@ =~= seq![digit_char(n as int % 10)]);
    }
    s.append(c);
    proof {
        if n < 10 {
            assert(n as int % 10 == n as int);
            assert(spec_digits(n as int) =~= seq![digit_char(n as int)]);
            assert(final(s)@ =~= old(s)@ + spec_digits(n as int));
        } else {
            assert(spec_digits(n as int) =~= spec_digits(n as int / 10).push(
                digit_char(n as int % 10),
            ));
            assert(final(s)@ =~= old(s)@ + spec_digits(n as int));
        }
    }
}

/// One line of the summary: the label, then its correct and incorrect counts.
pub open spec fn spec_line(label: int, right: int, wrong: int) -> Seq<char> {
    spec_digits(label) + ": "@ + spec_digits(right) + " correct, "@ + spec_digits(wrong)
        + " incorrect\n"@
}

/// The summary text over the given labels, one line per label in order.
pub open spec fn spec_summary_lines(
    rights: Seq<(u64, u64)>,
    wrongs: Seq<(u64, u64)>,
    labels: Seq<u8>,
) -> Seq<char>
    decreases labels.len(),
{
    if labels.len() == 0 {
        Seq::empty()
    } else {
        spec_summary_lines(rights, wrongs, labels.drop_last()) + spec_line(
            labels.last() as int,
            spec_get(rights, labels.last() as u64) as int,
            spec_get(wrongs, labels.last() as u64) as int,
        )
    }
}

impl ConfusionMatrix {
    /// The readable per-label report: for every recorded label in ascending
    /// order, one line with its correct and incorrect counts.
    pub fn summary(&self) -> (r: String)
        requires
            self.wf(),
        ensures
            r@ == spec_summary_lines(
                self.rights(),
                self.wrongs(),
                present_labels(self.rights(), self.wrongs()),
            ),
    {
        let labels = self.all_labels();
        let n = labels.len();
        let mut out = String::new();
        let mut i: usize = 0;
        while i < n
            invariant
                self.wf(),
                n == labels@.len(),
                labels@ == present_labels(self.rights(), self.wrongs()),
                0 <= i <= n,
                out@ == spec_summary_lines(self.rights(), self.wrongs(), labels@.take(i as int)),
            decreases n - i,
        {
            let lab = labels[i];
            push_decimal(&mut out, lab as u64);
            out.append(": ");
            push_decimal(&mut out, self.label_2_right.get(lab as u64));
            out.append(" correct, ");
            push_decimal(&mut out, self.label_2_wrong.get(lab as u64));
            out.append(" incorrect\n");
            proof {
                reveal_strlit(": ");
                reveal_strlit(" correct, ");
                reveal_strlit(" incorrect\n");
                assert(labels@.take(i as int + 1).drop_last() =~= labels@.take(i as int));
                assert(labels@.take(i as int + 1).last() == labels@[i as int]);
                assert(out@ =~= spec_summary_lines(
                    self.rights(),
                    self.wrongs(),
                    labels@.take(i as int + 1),
                ));
            }
            i = i + 1;
        }
        proof {
            assert(labels@.take(n as int) =~= labels@);
        }
        out
    }
}

/// The labels with at least one recorded classification, ascending, starting
/// the scan at `from`.
pub open spec fn labels_from(
    rights: Seq<(u64, u64)>,
    wrongs: Seq<(u64, u64)>,
    from: int,
) -> Seq<u8>
    decreases 256 - from,
{
    if from < 0 || from >= 256 {
        Seq::empty()
    } else {
        (if spec_get(rights, from as u8 as u64) > 0 || spec_get(wrongs, from as u8 as u64) > 0 {
            seq![from as u8]
        } else {
            Seq::empty()
        }) + labels_from(rights, wrongs, from + 1)
    }
}

/// Every label with at least one recorded classification, ascending.
pub open spec fn present_labels(rights: Seq<(u64, u64)>, wrongs: Seq<(u64, u64)>) -> Seq<u8> {
    labels_from(rights, wrongs, 0)
}

} // verus!
