//! The integer side of training and evaluation: the classes of a label
//! vector, the confusion counts behind the F1 score, picking rows and
//! feature columns, and stratified fold assignment.
use vstd::prelude::*;
pub use crate::folds::StratifiedKFold;

verus! {

// ---------------------------------------------------------------------------
// Classes
// ---------------------------------------------------------------------------

/// The elements of `s` strictly increase.
pub open spec fn strictly_increasing(s: Seq<usize>) -> bool {
    forall|i: int, j: int| 0 <= i < j < s.len() ==> #[trigger] s[i] < #[trigger] s[j]
}

/// The distinct labels of `y`, in increasing order.
pub fn unique_classes(y: &Vec<usize>) -> (r: Vec<usize>)
    ensures
        strictly_increasing(r@),
        forall|x: usize| r@.contains(x) <==> y@.contains(x),
{
    let mut r: Vec<usize> = Vec::new();
    let mut i: usize = 0;
    while i < y.len()
        invariant
            i <= y@.len(),
            strictly_increasing(r@),
            forall|x: usize| r@.contains(x) <==> y@.subrange(0, i as int).contains(x),
        decreases y@.len() - i,
    {
        let v = y[i];
        let mut p: usize = 0;
        while p < r.len() && r[p] < v
            invariant
                p <= r@.len(),
                forall|q: int| 0 <= q < p ==> #[trigger] r@[q] < v,
            decreases r@.len() - p,
        {
            p += 1;
        }
        let ghost old_r = r@;
        if p < r.len() && r[p] == v {
            proof {
                assert forall|x: usize| r@.contains(x) <==> (old_r.contains(x) || x == v) by {
                    if x == v {
                        assert(r@[p as int] == v);
                    }
                }
            }
        } else {
            r.insert(p, v);
            proof {
                assert forall|a: int, b: int| 0 <= a < b < r@.len() implies #[trigger] r@[a]
                    < #[trigger] r@[b] by {
                    if b < p {
                    } else if b == p {
                        assert(r@[a] == old_r[a]);
                    } else if a < p {
                        assert(r@[b] == old_r[b - 1]);
                        assert(old_r[a] < v);
                        if b - 1 > p {
                            assert(old_r[p as int] < old_r[b - 1]);
                        }
                        assert(old_r[p as int] > v);
                    } else if a == p {
                        assert(r@[b] == old_r[b - 1]);
                        if b - 1 > p {
                            assert(old_r[p as int] < old_r[b - 1]);
                        }
                    } else {
                        assert(r@[a] == old_r[a - 1]);
                        assert(r@[b] == old_r[b - 1]);
                    }
                }
                assert forall|x: usize| r@.contains(x) <==> (old_r.contains(x) || x == v) by {
                    if r@.contains(x) {
                        let k = choose|k: int| 0 <= k < r@.len() && r@[k] == x;
                        if k < p {
                            assert(old_r[k] == x);
                        } else if k > p {
                            assert(old_r[k - 1] == x);
                        }
                    }
                    if old_r.contains(x) {
                        let k = choose|k: int| 0 <= k < old_r.len() && old_r[k] == x;
                        if k < p {
                            assert(r@[k] == x);
                        } else {
                            assert(r@[k + 1] == x);
                        }
                    }
                    if x == v {
                        assert(r@[p as int] == v);
                    }
                }
            }
        }
        proof {
            let ys1 = y@.subrange(0, i + 1);
            let ys0 = y@.subrange(0, i as int);
            assert(ys1 == ys0.push(v));
            assert forall|x: usize| r@.contains(x) <==> ys1.contains(x) by {
                assert(r@.contains(x) <==> (old_r.contains(x) || x == v));
                assert(old_r.contains(x) <==> ys0.contains(x));
                if ys1.contains(x) && x != v {
                    let k = choose|k: int| 0 <= k < ys1.len() && ys1[k] == x;
                    assert(ys0[k] == x);
                }
                if ys0.contains(x) {
                    let k = choose|k: int| 0 <= k < ys0.len() && ys0[k] == x;
                    assert(ys1[k] == x);
                }
                if x == v {
                    assert(ys1[i as int] == v);
                }
            }
        }
        i += 1;
    }
    assert(y@.subrange(0, y@.len() as int) =~= y@);
    r
}

// ---------------------------------------------------------------------------
// Confusion counts
// ---------------------------------------------------------------------------

/// Among the first `m` pairs, those where `c` was predicted and was right.
pub open spec fn true_positives(pred: Seq<usize>, truth: Seq<usize>, c: usize, m: nat) -> nat
    decreases m,
{
    if m == 0 {
        0
    } else {
        true_positives(pred, truth, c, (m - 1) as nat) + if pred[m - 1] == c && truth[m - 1]
            == c {
            1nat
        } else {
            0nat
        }
    }
}

/// Among the first `m` pairs, those where `c` was predicted and was wrong.
pub open spec fn false_positives(pred: Seq<usize>, truth: Seq<usize>, c: usize, m: nat) -> nat
    decreases m,
{
    if m == 0 {
        0
    } else {
        false_positives(pred, truth, c, (m - 1) as nat) + if pred[m - 1] == c && truth[m - 1]
            != c {
            1nat
        } else {
            0nat
        }
    }
}

/// Among the first `m` pairs, those of class `c` that were predicted as another class.
pub open spec fn false_negatives(pred: Seq<usize>, truth: Seq<usize>, c: usize, m: nat) -> nat
    decreases m,
{
    if m == 0 {
        0
    } else {
        false_negatives(pred, truth, c, (m - 1) as nat) + if truth[m - 1] == c && pred[m - 1]
            != c {
            1nat
        } else {
            0nat
        }
    }
}

/// The first `m` pairs of a prediction and its ground truth.
pub open spec fn pairs_of(pred: Seq<usize>, truth: Seq<usize>, m: nat) -> Seq<(usize, usize)> {
    Seq::new(m, |i: int| (pred[i], truth[i]))
}

/// How the counts of a class `c` tally over the first `m` pairs: the true
/// positives are the pairs `(c, c)`; true and false positives together are
/// every prediction of `c`, so each wrong prediction is a false positive of
/// the class it predicted and of no other; true positives and false
/// negatives together are every sample of class `c`, so each miss is a false
/// negative of its true class and of no other.
pub proof fn law_confusion_tally(pred: Seq<usize>, truth: Seq<usize>, c: usize, m: nat)
    requires
        m <= pred.len(),
        m <= truth.len(),
    ensures
        true_positives(pred, truth, c, m) == pairs_of(pred, truth, m).to_multiset().count((c, c)),
        true_positives(pred, truth, c, m) + false_positives(pred, truth, c, m) == pred.take(
            m as int,
        ).to_multiset().count(c),
        true_positives(pred, truth, c, m) + false_negatives(pred, truth, c, m) == truth.take(
            m as int,
        ).to_multiset().count(c),
    decreases m,
{
    broadcast use vstd::seq_lib::group_to_multiset_ensures;
    broadcast use vstd::multiset::group_multiset_axioms;

    if m == 0 {
        assert(pairs_of(pred, truth, 0) =~= Seq::<(usize, usize)>::empty());
        assert(pred.take(0) =~= Seq::<usize>::empty());
        assert(truth.take(0) =~= Seq::<usize>::empty());
    } else {
        let k = (m - 1) as nat;
        law_confusion_tally(pred, truth, c, k);
        assert(pairs_of(pred, truth, m) =~= pairs_of(pred, truth, k).push((pred[k as int], truth[k as int])));
        assert(pred.take(m as int) =~= pred.take(k as int).push(pred[k as int]));
        assert(truth.take(m as int) =~= truth.take(k as int).push(truth[k as int]));
    }
}

/// How many pairs a prediction and its ground truth have in common.
pub open spec fn paired_len(pred: Seq<usize>, truth: Seq<usize>) -> nat {
    if pred.len() < truth.len() {
        pred.len()
    } else {
        truth.len()
    }
}

/// True positives, false positives and false negatives of one class.
#[derive(Debug, Clone, Copy, PartialEq, Eq)]
pub struct ClassCounts {
    pub class: usize,
    pub tp: usize,
    pub fp: usize,
    pub fn_: usize,
}

/// Where `v` stands in `s` (which must hold it).
fn position_of(s: &Vec<usize>, v: usize) -> (j: usize)
    requires
        s@.contains(v),
    ensures
        j < s@.len(),
        s@[j as int] == v,
{
    let mut j: usize = 0;
    while j < s.len()
        invariant
            j <= s@.len(),
            s@.contains(v),
            forall|q: int| 0 <= q < j ==> s@[q] != v,
        decreases s@.len() - j,
    {
        if s[j] == v {
            return j;
        }
        j += 1;
    }
    proof {
        let q = choose|q: int| 0 <= q < s@.len() && s@[q] == v;
        assert(s@[q] != v);
    }
    0
}

/// For each class of the ground truth, in increasing order, how often it was
/// predicted rightly (`tp`), how often it was predicted wrongly (`fp`) and how
/// often it was missed (`fn_`), over the pairs that the two vectors have in
/// common. Every wrong prediction must name a class of the ground truth.
pub fn confusion_counts(predictions: &Vec<usize>, ground_truth: &Vec<usize>) -> (r: Vec<
    ClassCounts,
>)
    requires
        forall|i: int|
            0 <= i < paired_len(predictions@, ground_truth@) ==> predictions@[i]
                == ground_truth@[i] || ground_truth@.contains(#[trigger] predictions@[i]),
    ensures
        strictly_increasing(r@.map_values(|c: ClassCounts| c.class)),
        forall|x: usize|
            r@.map_values(|c: ClassCounts| c.class).contains(x) <==> ground_truth@.contains(x),
        forall|j: int|
            0 <= j < r@.len() ==> {
                let c = #[trigger] r@[j];
                let m = paired_len(predictions@, ground_truth@);
                &&& c.tp == true_positives(predictions@, ground_truth@, c.class, m)
                &&& c.fp == false_positives(predictions@, ground_truth@, c.class, m)
                &&& c.fn_ == false_negatives(predictions@, ground_truth@, c.class, m)
            },
        forall|j: int|
            0 <= j < r@.len() ==> {
                let c = #[trigger] r@[j];
                let m = paired_len(predictions@, ground_truth@);
                &&& c.tp == pairs_of(predictions@, ground_truth@, m).to_multiset().count(
                    (c.class, c.class),
                )
                &&& c.tp + c.fp == predictions@.take(m as int).to_multiset().count(c.class)
                &&& c.tp + c.fn_ == ground_truth@.take(m as int).to_multiset().count(c.class)
            },
{
    let classes = unique_classes(ground_truth);
    let m = if predictions.len() < ground_truth.len() {
        predictions.len()
    } else {
        ground_truth.len()
    };
    let ghost p = predictions@;
    let ghost t = ground_truth@;
    let mut tp: Vec<usize> = Vec::new();
    let mut fp: Vec<usize> = Vec::new();
    let mut fns: Vec<usize> = Vec::new();
    let mut j: usize = 0;
    while j < classes.len()
        invariant
            j <= classes@.len(),
            tp@.len() == j,
            fp@.len() == j,
            fns@.len() == j,
            forall|q: int| 0 <= q < j ==> #[trigger] tp@[q] == 0,
            forall|q: int| 0 <= q < j ==> #[trigger] fp@[q] == 0,
            forall|q: int| 0 <= q < j ==> #[trigger] fns@[q] == 0,
        decreases classes@.len() - j,
    {
        tp.push(0);
        fp.push(0);
        fns.push(0);
        j += 1;
    }
    let mut i: usize = 0;
    while i < m
        invariant
            m == paired_len(p, t),
            p == predictions@,
            t == ground_truth@,
            i <= m,
            forall|x: usize| classes@.contains(x) <==> t.contains(x),
            strictly_increasing(classes@),
            forall|q: int|
                0 <= q < paired_len(p, t) ==> p[q] == t[q] || t.contains(#[trigger] p[q]),
            tp@.len() == classes@.len(),
            fp@.len() == classes@.len(),
            fns@.len() == classes@.len(),
            forall|q: int|
                0 <= q < classes@.len() ==> #[trigger] tp@[q] == true_positives(
                    p,
                    t,
                    classes@[q],
                    i as nat,
                ) && tp@[q] <= i,
            forall|q: int|
                0 <= q < classes@.len() ==> #[trigger] fp@[q] == false_positives(
                    p,
                    t,
                    classes@[q],
                    i as nat,
                ) && fp@[q] <= i,
            forall|q: int|
                0 <= q < classes@.len() ==> #[trigger] fns@[q] == false_negatives(
                    p,
                    t,
                    classes@[q],
                    i as nat,
                ) && fns@[q] <= i,
        decreases m - i,
    {
        let a = predictions[i];
        let b = ground_truth[i];
        let ghost tp0 = tp@;
        let ghost fp0 = fp@;
        let ghost fn0 = fns@;
        proof {
            assert(t[i as int] == b);
            assert(t.contains(b));
        }
        let ghost qa: int;
        let ghost qb: int;
        if a == b {
            let q = position_of(&classes, a);
            let v = tp[q] + 1;
            tp.set(q, v);
            proof {
                qa = q as int;
                qb = q as int;
            }
        } else {
            let q1 = position_of(&classes, a);
            let v1 = fp[q1] + 1;
            fp.set(q1, v1);
            let q2 = position_of(&classes, b);
            let v2 = fns[q2] + 1;
            fns.set(q2, v2);
            proof {
                qa = q1 as int;
                qb = q2 as int;
            }
        }
        proof {
            assert(p[i as int] == a && t[i as int] == b);
            assert(classes@[qa] == a && classes@[qb] == b);
            assert forall|q: int| 0 <= q < classes@.len() && q != qa implies #[trigger] classes@[q]
                != a by {
                if q < qa {
                    assert(classes@[q] < classes@[qa]);
                } else {
                    assert(classes@[qa] < classes@[q]);
                }
            }
            assert forall|q: int| 0 <= q < classes@.len() && q != qb implies #[trigger] classes@[q]
                != b by {
                if q < qb {
                    assert(classes@[q] < classes@[qb]);
                } else {
                    assert(classes@[qb] < classes@[q]);
                }
            }
            assert forall|q: int| 0 <= q < classes@.len() implies #[trigger] tp@[q]
                == true_positives(p, t, classes@[q], (i + 1) as nat) && tp@[q] <= i + 1 by {
                assert(tp0[q] == true_positives(p, t, classes@[q], i as nat));
                if q != qa {
                    assert(classes@[q] != a);
                }
            }
            assert forall|q: int| 0 <= q < classes@.len() implies #[trigger] fp@[q]
                == false_positives(p, t, classes@[q], (i + 1) as nat) && fp@[q] <= i + 1 by {
                assert(fp0[q] == false_positives(p, t, classes@[q], i as nat));
                if q != qa {
                    assert(classes@[q] != a);
                }
            }
            assert forall|q: int| 0 <= q < classes@.len() implies #[trigger] fns@[q]
                == false_negatives(p, t, classes@[q], (i + 1) as nat) && fns@[q] <= i + 1 by {
                assert(fn0[q] == false_negatives(p, t, classes@[q], i as nat));
                if q != qb {
                    assert(classes@[q] != b);
                }
            }
        }
        i += 1;
    }
    let mut r: Vec<ClassCounts> = Vec::new();
    let mut j: usize = 0;
    while j < classes.len()
        invariant
            j <= classes@.len(),
            r@.len() == j,
            tp@.len() == classes@.len(),
            fp@.len() == classes@.len(),
            fns@.len() == classes@.len(),
            forall|q: int|
                0 <= q < j ==> #[trigger] r@[q] == (ClassCounts {
                    class: classes@[q],
                    tp: tp@[q],
                    fp: fp@[q],
                    fn_: fns@[q],
                }),
        decreases classes@.len() - j,
    {
        r.push(ClassCounts { class: classes[j], tp: tp[j], fp: fp[j], fn_: fns[j] });
        j += 1;
    }
    proof {
        assert(r@.map_values(|c: ClassCounts| c.class) =~= classes@);
        assert forall|q: int| 0 <= q < r@.len() implies {
            let c = #[trigger] r@[q];
            let m = paired_len(p, t);
            &&& c.tp == pairs_of(p, t, m).to_multiset().count((c.class, c.class))
            &&& c.tp + c.fp == p.take(m as int).to_multiset().count(c.class)
            &&& c.tp + c.fn_ == t.take(m as int).to_multiset().count(c.class)
        } by {
            law_confusion_tally(p, t, r@[q].class, paired_len(p, t));
        }
    }
    r
}

// ---------------------------------------------------------------------------
// Picking rows and columns
// ---------------------------------------------------------------------------

/// The elements of `values` at the given positions, in the order given.
pub fn select_elements(values: &Vec<usize>, indices: &Vec<usize>) -> (r: Vec<usize>)
    requires
        forall|i: int| 0 <= i < indices@.len() ==> #[trigger] indices@[i] < values@.len(),
    ensures
        r@ == indices@.map_values(|x: usize| values@[x as int]),
{
    let mut r: Vec<usize> = Vec::with_capacity(indices.len());
    let mut i: usize = 0;
    while i < indices.len()
        invariant
            i <= indices@.len(),
            forall|q: int| 0 <= q < indices@.len() ==> #[trigger] indices@[q] < values@.len(),
            r@ == indices@.subrange(0, i as int).map_values(|x: usize| values@[x as int]),
        decreases indices@.len() - i,
    {
        r.push(values[indices[i]]);
        i += 1;
        assert(r@ =~= indices@.subrange(0, i as int).map_values(|x: usize| values@[x as int]));
    }
    assert(indices@.subrange(0, indices@.len() as int) =~= indices@);
    r
}

/// A feature number that names no column: zero, or beyond `n_features`.
pub open spec fn bad_feature(x: usize, n_features: usize) -> bool {
    x == 0 || x > n_features
}

/// A feature number names a column exactly when it lies in `1..=n_features`:
/// then it is column `x - 1`, one of the `n_features` columns.
pub proof fn law_feature_names_a_column(n_features: usize)
    ensures
        forall|x: usize|
            !#[trigger] bad_feature(x, n_features) <==> 1 <= x <= n_features,
        forall|x: usize| !#[trigger] bad_feature(x, n_features) ==> x - 1 < n_features,
{
}

/// The columns that the 1-indexed feature numbers name, counted from zero;
/// or, if a feature number names no column (zero, or beyond the
/// `n_features` columns), the first such number.
pub fn feature_columns(feature_indices: &Vec<usize>, n_features: usize) -> (r: Result<
    Vec<usize>,
    usize,
>)
    ensures
        r is Ok <==> forall|i: int|
            0 <= i < feature_indices@.len() ==> !bad_feature(#[trigger] feature_indices@[i], n_features),
        r matches Ok(cols) ==> cols@ == feature_indices@.map_values(|x: usize| (x - 1) as usize),
        r matches Err(bad) ==> exists|i: int|
            0 <= i < feature_indices@.len() && #[trigger] feature_indices@[i] == bad
                && bad_feature(bad, n_features) && forall|j: int|
                0 <= j < i ==> !bad_feature(#[trigger] feature_indices@[j], n_features),
        r matches Ok(cols) ==> forall|i: int|
            0 <= i < cols@.len() ==> #[trigger] cols@[i] < n_features && cols@[i] + 1
                == feature_indices@[i],
        forall|i: int|
            0 <= i < feature_indices@.len() && (#[trigger] feature_indices@[i] == 0
                || feature_indices@[i] > n_features) ==> r is Err,
        r matches Err(bad) ==> bad == 0 || bad > n_features,
{
    proof {
        law_feature_names_a_column(n_features);
    }
    let mut cols: Vec<usize> = Vec::with_capacity(feature_indices.len());
    let mut i: usize = 0;
    while i < feature_indices.len()
        invariant
            i <= feature_indices@.len(),
            forall|q: int| 0 <= q < i ==> !bad_feature(#[trigger] feature_indices@[q], n_features),
            cols@ == feature_indices@.subrange(0, i as int).map_values(
                |x: usize| (x - 1) as usize,
            ),
        decreases feature_indices@.len() - i,
    {
        let f = feature_indices[i];
        if f == 0 || f - 1 >= n_features {
            return Err(f);
        }
        cols.push(f - 1);
        i += 1;
        assert(cols@ =~= feature_indices@.subrange(0, i as int).map_values(
            |x: usize| (x - 1) as usize,
        ));
    }
    assert(feature_indices@.subrange(0, feature_indices@.len() as int) =~= feature_indices@);
    Ok(cols)
}

} // verus!
