//! What every stratified split guarantees, whatever order the shuffle left
//! each class in: every split uses each sample once, the test folds together
//! use each sample once, and each test fold holds an even share of every
//! class.
use vstd::prelude::*;
use vstd::multiset::Multiset;
use crate::folds::{
    all_but,
    arranged,
    class_groups_of,
    classes_in_order,
    fold_of,
    lemma_positions_absent,
    positions_of,
    strided,
    test_folds,
};

verus! {

// ---------------------------------------------------------------------------
// Measures
// ---------------------------------------------------------------------------

/// The sample indices `0..len`, each once.
pub open spec fn sample_indices(len: nat) -> Multiset<usize>
    decreases len,
{
    if len == 0 {
        Multiset::empty()
    } else {
        sample_indices((len - 1) as nat).insert((len - 1) as usize)
    }
}

/// Everything that the sequences hold, together.
pub open spec fn joined(ss: Seq<Seq<usize>>) -> Multiset<usize>
    decreases ss.len(),
{
    if ss.len() == 0 {
        Multiset::empty()
    } else {
        joined(ss.drop_last()).add(ss.last().to_multiset())
    }
}

/// How many samples carry the label `c`.
pub open spec fn count_of(y: Seq<usize>, c: usize) -> nat
    decreases y.len(),
{
    if y.len() == 0 {
        0
    } else {
        count_of(y.drop_last(), c) + if y.last() == c {
            1nat
        } else {
            0nat
        }
    }
}

/// How many of the sample indices in `s` carry the label `c` in `y`.
pub open spec fn label_count(y: Seq<usize>, s: Seq<usize>, c: usize) -> nat
    decreases s.len(),
{
    if s.len() == 0 {
        0
    } else {
        label_count(y, s.drop_last(), c) + if y[s.last() as int] == c {
            1nat
        } else {
            0nat
        }
    }
}

/// How many of the positions `0..m` leave the remainder `f` when divided by `n`.
pub open spec fn stride_count(m: nat, n: nat, f: nat) -> nat
    decreases m,
{
    if m == 0 {
        0
    } else {
        stride_count((m - 1) as nat, n, f) + if ((m - 1) as nat) % n == f {
            1nat
        } else {
            0nat
        }
    }
}

// ---------------------------------------------------------------------------
// Class groups
// ---------------------------------------------------------------------------

proof fn lemma_classes_contains(y: Seq<usize>, v: usize)
    ensures
        classes_in_order(y).contains(v) <==> y.contains(v),
    decreases y.len(),
{
    broadcast use vstd::seq_lib::group_seq_properties;

    if y.len() > 0 {
        let d = y.drop_last();
        let w = y.last();
        let cd = classes_in_order(d);
        lemma_classes_contains(d, v);
        assert(y =~= d.push(w));
        if cd.contains(w) {
            assert(classes_in_order(y) == cd);
            if w == v {
                assert(y.contains(v));
            }
        } else {
            assert(classes_in_order(y) == cd.push(w));
        }
    }
}

proof fn lemma_classes_distinct(y: Seq<usize>)
    ensures
        forall|a: int, b: int|
            0 <= a < b < classes_in_order(y).len() ==> #[trigger] classes_in_order(y)[a]
                != #[trigger] classes_in_order(y)[b],
    decreases y.len(),
{
    if y.len() > 0 {
        let d = y.drop_last();
        let w = y.last();
        let cd = classes_in_order(d);
        lemma_classes_distinct(d);
        if !cd.contains(w) {
            let cy = classes_in_order(y);
            assert(cy == cd.push(w));
            assert forall|a: int, b: int| 0 <= a < b < cy.len() implies #[trigger] cy[a]
                != #[trigger] cy[b] by {
                if b == cd.len() {
                    assert(cy[a] == cd[a]);
                    assert(cy[b] == w);
                } else {
                    assert(cy[a] == cd[a]);
                    assert(cy[b] == cd[b]);
                }
            }
        }
    }
}

proof fn lemma_positions_props(y: Seq<usize>, c: usize)
    requires
        y.len() <= usize::MAX + 1,
    ensures
        positions_of(y, c).len() == count_of(y, c),
        forall|i: int|
            0 <= i < positions_of(y, c).len() ==> #[trigger] positions_of(y, c)[i] < y.len()
                && y[positions_of(y, c)[i] as int] == c,
    decreases y.len(),
{
    if y.len() > 0 {
        let d = y.drop_last();
        lemma_positions_props(d, c);
        let p = positions_of(y, c);
        let pd = positions_of(d, c);
        if y.last() == c {
            assert(p == pd.push((y.len() - 1) as usize));
        } else {
            assert(p == pd);
        }
        assert forall|i: int| 0 <= i < p.len() implies #[trigger] p[i] < y.len() && y[p[i] as int]
            == c by {
            if i < pd.len() {
                assert(p[i] == pd[i]);
                assert(y[p[i] as int] == d[p[i] as int]);
            } else {
                assert(p[i] == (y.len() - 1) as usize);
                assert(y[y.len() - 1] == y.last());
            }
        }
    }
}

proof fn lemma_joined_push_at(a: Seq<Seq<usize>>, b: Seq<Seq<usize>>, j: int, x: usize)
    requires
        a.len() == b.len(),
        0 <= j < a.len(),
        b[j] == a[j].push(x),
        forall|g: int| 0 <= g < a.len() && g != j ==> #[trigger] b[g] == a[g],
    ensures
        joined(b) == joined(a).insert(x),
    decreases a.len(),
{
    broadcast use vstd::seq_lib::group_to_multiset_ensures;
    broadcast use vstd::multiset::group_multiset_axioms;

    if j == a.len() - 1 {
        assert(b.drop_last() =~= a.drop_last());
        assert(joined(b) =~= joined(a).insert(x));
    } else {
        lemma_joined_push_at(a.drop_last(), b.drop_last(), j, x);
        assert(b.last() == a.last());
        assert(joined(b) =~= joined(a).insert(x));
    }
}

/// The class groups of `y` together hold every sample index exactly once.
pub proof fn lemma_class_groups_joined(y: Seq<usize>)
    requires
        y.len() <= usize::MAX + 1,
    ensures
        joined(class_groups_of(y)) == sample_indices(y.len()),
    decreases y.len(),
{
    broadcast use vstd::seq_lib::group_to_multiset_ensures;
    broadcast use vstd::multiset::group_multiset_axioms;

    if y.len() > 0 {
        let d = y.drop_last();
        let v = y.last();
        let l = (y.len() - 1) as usize;
        lemma_class_groups_joined(d);
        lemma_classes_distinct(d);
        let cls0 = classes_in_order(d);
        let cg0 = class_groups_of(d);
        let cg = class_groups_of(y);
        assert(d.len() == l);
        if cls0.contains(v) {
            assert(classes_in_order(y) == cls0);
            let j = choose|j: int| 0 <= j < cls0.len() && cls0[j] == v;
            assert(cg[j] == positions_of(y, v));
            assert(positions_of(y, v) == positions_of(d, v).push(l));
            assert forall|g: int| 0 <= g < cg0.len() && g != j implies #[trigger] cg[g] == cg0[g] by {
                if g < j {
                    assert(cls0[g] != cls0[j]);
                } else {
                    assert(cls0[j] != cls0[g]);
                }
            }
            lemma_joined_push_at(cg0, cg, j, l);
        } else {
            assert(classes_in_order(y) == cls0.push(v));
            lemma_classes_contains(d, v);
            lemma_positions_absent(d, v);
            assert(positions_of(y, v) =~= seq![l]);
            assert forall|g: int| 0 <= g < cg0.len() implies #[trigger] cg[g] == cg0[g] by {
                assert(cls0[g] != v);
            }
            assert(cg.drop_last() =~= cg0);
            assert(cg.last() == seq![l]);
            assert(seq![l].to_multiset() =~= Multiset::<usize>::empty().insert(l)) by {
                assert(seq![l] =~= Seq::<usize>::empty().push(l));
            }
            assert(joined(cg) =~= joined(cg0).insert(l));
        }
    }
}

proof fn lemma_joined_same_multisets(a: Seq<Seq<usize>>, b: Seq<Seq<usize>>)
    requires
        a.len() == b.len(),
        forall|g: int| 0 <= g < a.len() ==> (#[trigger] a[g]).to_multiset() == b[g].to_multiset(),
    ensures
        joined(a) == joined(b),
    decreases a.len(),
{
    if a.len() > 0 {
        lemma_joined_same_multisets(a.drop_last(), b.drop_last());
        assert(a.last().to_multiset() == b.last().to_multiset());
    }
}

// ---------------------------------------------------------------------------
// Dealing out keeps every element
// ---------------------------------------------------------------------------

/// What the first `m` strides of `g` hold together.
spec fn strided_sum(g: Seq<usize>, n: nat, m: nat) -> Multiset<usize>
    decreases m,
{
    if m == 0 {
        Multiset::empty()
    } else {
        strided_sum(g, n, (m - 1) as nat).add(strided(g, n, (m - 1) as nat).to_multiset())
    }
}

proof fn lemma_strided_push(g: Seq<usize>, x: usize, n: nat, f: nat)
    ensures
        strided(g.push(x), n, f) == if g.len() % n == f {
            strided(g, n, f).push(x)
        } else {
            strided(g, n, f)
        },
{
    assert(g.push(x).drop_last() =~= g);
}

proof fn lemma_strided_sum_push(g: Seq<usize>, x: usize, n: nat, m: nat)
    requires
        n > 0,
    ensures
        strided_sum(g.push(x), n, m) == if g.len() % n < m {
            strided_sum(g, n, m).insert(x)
        } else {
            strided_sum(g, n, m)
        },
    decreases m,
{
    broadcast use vstd::seq_lib::group_to_multiset_ensures;
    broadcast use vstd::multiset::group_multiset_axioms;

    if m > 0 {
        let f = (m - 1) as nat;
        lemma_strided_sum_push(g, x, n, f);
        lemma_strided_push(g, x, n, f);
        let s0 = strided_sum(g, n, f);
        let t0 = strided(g, n, f);
        assert(strided_sum(g, n, m) == s0.add(t0.to_multiset()));
        if g.len() % n == f {
            assert(strided_sum(g.push(x), n, f) == s0);
            assert(strided(g.push(x), n, f).to_multiset() =~= t0.to_multiset().insert(x));
            assert(strided_sum(g.push(x), n, m) =~= strided_sum(g, n, m).insert(x));
        } else if g.len() % n < f {
            assert(strided_sum(g.push(x), n, f) == s0.insert(x));
            assert(strided(g.push(x), n, f) == t0);
            assert(strided_sum(g.push(x), n, m) =~= strided_sum(g, n, m).insert(x));
        } else {
            assert(strided_sum(g.push(x), n, f) == s0);
            assert(strided(g.push(x), n, f) == t0);
            assert(strided_sum(g.push(x), n, m) =~= strided_sum(g, n, m));
        }
    }
}

proof fn lemma_strided_sum_all(g: Seq<usize>, n: nat)
    requires
        n > 0,
    ensures
        strided_sum(g, n, n) == g.to_multiset(),
    decreases g.len(),
{
    broadcast use vstd::seq_lib::group_to_multiset_ensures;
    broadcast use vstd::multiset::group_multiset_axioms;

    if g.len() == 0 {
        lemma_strided_sum_empty(g, n, n);
        assert(g.to_multiset() =~= Multiset::<usize>::empty());
    } else {
        let d = g.drop_last();
        let x = g.last();
        assert(d.push(x) =~= g);
        lemma_strided_sum_all(d, n);
        lemma_strided_sum_push(d, x, n, n);
        assert(d.len() % n < n);
    }
}

proof fn lemma_strided_sum_empty(g: Seq<usize>, n: nat, m: nat)
    requires
        g.len() == 0,
    ensures
        strided_sum(g, n, m) == Multiset::<usize>::empty(),
    decreases m,
{
    broadcast use vstd::seq_lib::group_to_multiset_ensures;
    broadcast use vstd::multiset::group_multiset_axioms;

    if m > 0 {
        lemma_strided_sum_empty(g, n, (m - 1) as nat);
        assert(strided(g, n, (m - 1) as nat) =~= Seq::<usize>::empty());
        assert(strided_sum(g, n, m) =~= Multiset::<usize>::empty());
    }
}

/// What the first `m` folds hold together.
spec fn fold_sum(sg: Seq<Seq<usize>>, n: nat, m: nat) -> Multiset<usize>
    decreases m,
{
    if m == 0 {
        Multiset::empty()
    } else {
        fold_sum(sg, n, (m - 1) as nat).add(fold_of(sg, n, (m - 1) as nat).to_multiset())
    }
}

proof fn lemma_fold_sum_push(sg: Seq<Seq<usize>>, h: Seq<usize>, n: nat, m: nat)
    ensures
        fold_sum(sg.push(h), n, m) == fold_sum(sg, n, m).add(strided_sum(h, n, m)),
    decreases m,
{
    broadcast use vstd::seq_lib::group_to_multiset_ensures;
    broadcast use vstd::multiset::group_multiset_axioms;

    if m == 0 {
        assert(fold_sum(sg.push(h), n, m) =~= fold_sum(sg, n, m).add(strided_sum(h, n, m)));
    } else {
        let f = (m - 1) as nat;
        lemma_fold_sum_push(sg, h, n, f);
        assert(sg.push(h).drop_last() =~= sg);
        assert(fold_of(sg.push(h), n, f) == fold_of(sg, n, f) + strided(h, n, f));
        vstd::seq_lib::lemma_multiset_commutative(fold_of(sg, n, f), strided(h, n, f));
        assert(fold_sum(sg.push(h), n, m) =~= fold_sum(sg, n, m).add(strided_sum(h, n, m)));
    }
}

proof fn lemma_fold_sum_empty(sg: Seq<Seq<usize>>, n: nat, m: nat)
    requires
        sg.len() == 0,
    ensures
        fold_sum(sg, n, m) == Multiset::<usize>::empty(),
    decreases m,
{
    broadcast use vstd::seq_lib::group_to_multiset_ensures;
    broadcast use vstd::multiset::group_multiset_axioms;

    if m > 0 {
        lemma_fold_sum_empty(sg, n, (m - 1) as nat);
        assert(fold_of(sg, n, (m - 1) as nat) =~= Seq::<usize>::empty());
        assert(fold_sum(sg, n, m) =~= Multiset::<usize>::empty());
    }
}

proof fn lemma_fold_sum_all(sg: Seq<Seq<usize>>, n: nat)
    requires
        n > 0,
    ensures
        fold_sum(sg, n, n) == joined(sg),
    decreases sg.len(),
{
    broadcast use vstd::multiset::group_multiset_axioms;

    if sg.len() == 0 {
        lemma_fold_sum_empty(sg, n, n);
    } else {
        let d = sg.drop_last();
        let h = sg.last();
        assert(d.push(h) =~= sg);
        lemma_fold_sum_all(d, n);
        lemma_fold_sum_push(d, h, n, n);
        lemma_strided_sum_all(h, n);
    }
}

proof fn lemma_joined_take_folds(sg: Seq<Seq<usize>>, n: nat, m: nat)
    requires
        m <= n,
    ensures
        joined(test_folds(sg, n).take(m as int)) == fold_sum(sg, n, m),
    decreases m,
{
    if m > 0 {
        lemma_joined_take_folds(sg, n, (m - 1) as nat);
        let t = test_folds(sg, n);
        assert(t.take(m as int).drop_last() =~= t.take(m - 1));
        assert(t.take(m as int).last() == fold_of(sg, n, (m - 1) as nat));
    }
}

/// The test folds together hold exactly what the groups hold.
pub proof fn lemma_test_folds_joined(sg: Seq<Seq<usize>>, n: nat)
    requires
        n > 0,
    ensures
        joined(test_folds(sg, n)) == joined(sg),
{
    lemma_joined_take_folds(sg, n, n);
    assert(test_folds(sg, n).take(n as int) =~= test_folds(sg, n));
    lemma_fold_sum_all(sg, n);
}

proof fn lemma_all_but_beyond(folds: Seq<Seq<usize>>, f: int)
    requires
        f >= folds.len(),
    ensures
        all_but(folds, f).to_multiset() == joined(folds),
    decreases folds.len(),
{
    broadcast use vstd::seq_lib::group_to_multiset_ensures;
    broadcast use vstd::multiset::group_multiset_axioms;

    if folds.len() == 0 {
        assert(all_but(folds, f).to_multiset() =~= Multiset::<usize>::empty());
    } else {
        lemma_all_but_beyond(folds.drop_last(), f);
        vstd::seq_lib::lemma_multiset_commutative(all_but(folds.drop_last(), f), folds.last());
    }
}

/// Fold `f` and all other folds together hold what all folds hold.
pub proof fn lemma_all_but_and_fold(folds: Seq<Seq<usize>>, f: int)
    requires
        0 <= f < folds.len(),
    ensures
        all_but(folds, f).to_multiset().add(folds[f].to_multiset()) == joined(folds),
    decreases folds.len(),
{
    broadcast use vstd::seq_lib::group_to_multiset_ensures;
    broadcast use vstd::multiset::group_multiset_axioms;

    let d = folds.drop_last();
    if f == folds.len() - 1 {
        lemma_all_but_beyond(d, f);
    } else {
        lemma_all_but_and_fold(d, f);
        vstd::seq_lib::lemma_multiset_commutative(all_but(d, f), folds.last());
        assert(d[f] == folds[f]);
        assert(all_but(folds, f).to_multiset().add(folds[f].to_multiset()) =~= joined(folds));
    }
}

// ---------------------------------------------------------------------------
// Even shares of every class
// ---------------------------------------------------------------------------

proof fn lemma_label_count_concat(y: Seq<usize>, a: Seq<usize>, b: Seq<usize>, c: usize)
    ensures
        label_count(y, a + b, c) == label_count(y, a, c) + label_count(y, b, c),
    decreases b.len(),
{
    if b.len() == 0 {
        assert(a + b =~= a);
    } else {
        lemma_label_count_concat(y, a, b.drop_last(), c);
        assert((a + b).drop_last() =~= a + b.drop_last());
        assert((a + b).last() == b.last());
    }
}

proof fn lemma_label_count_uniform(y: Seq<usize>, s: Seq<usize>, d: usize, c: usize)
    requires
        forall|i: int| 0 <= i < s.len() ==> y[#[trigger] s[i] as int] == d,
    ensures
        label_count(y, s, c) == if d == c {
            s.len()
        } else {
            0
        },
    decreases s.len(),
{
    if s.len() > 0 {
        let t = s.drop_last();
        assert forall|i: int| 0 <= i < t.len() implies y[#[trigger] t[i] as int] == d by {
            assert(t[i] == s[i]);
        }
        lemma_label_count_uniform(y, t, d, c);
        assert(y[s[s.len() - 1] as int] == d);
    }
}

proof fn lemma_strided_props(g: Seq<usize>, n: nat, f: nat)
    ensures
        strided(g, n, f).len() == stride_count(g.len(), n, f),
        forall|i: int|
            0 <= i < strided(g, n, f).len() ==> g.contains(#[trigger] strided(g, n, f)[i]),
    decreases g.len(),
{
    if g.len() > 0 {
        let d = g.drop_last();
        lemma_strided_props(d, n, f);
        let s = strided(g, n, f);
        assert forall|i: int| 0 <= i < s.len() implies g.contains(#[trigger] s[i]) by {
            if i < strided(d, n, f).len() {
                assert(s[i] == strided(d, n, f)[i]);
                let k = choose|k: int| 0 <= k < d.len() && d[k] == s[i];
                assert(g[k] == s[i]);
            } else {
                assert(s[i] == g.last());
                assert(g[g.len() - 1] == s[i]);
            }
        }
    }
}

proof fn lemma_fold_label_count(
    y: Seq<usize>,
    sg: Seq<Seq<usize>>,
    cls: Seq<usize>,
    n: nat,
    f: nat,
    c: usize,
)
    requires
        cls.len() == sg.len(),
        forall|a: int, b: int| 0 <= a < b < cls.len() ==> #[trigger] cls[a] != #[trigger] cls[b],
        forall|g: int, i: int|
            0 <= g < sg.len() && 0 <= i < sg[g].len() ==> y[#[trigger] sg[g][i] as int] == cls[g],
        forall|g: int| 0 <= g < sg.len() ==> (#[trigger] sg[g]).len() == count_of(y, cls[g]),
    ensures
        label_count(y, fold_of(sg, n, f), c) == if cls.contains(c) {
            stride_count(count_of(y, c), n, f)
        } else {
            0
        },
    decreases sg.len(),
{
    if sg.len() > 0 {
        let d = sg.drop_last();
        let dc = cls.drop_last();
        let h = sg.last();
        let hc = cls.last();
        assert forall|g: int, i: int| 0 <= g < d.len() && 0 <= i < d[g].len() implies y[#[trigger] d[g][i] as int] == dc[g] by {
            assert(d[g] == sg[g]);
        }
        assert forall|g: int| 0 <= g < d.len() implies (#[trigger] d[g]).len() == count_of(y, dc[g]) by {
            assert(d[g] == sg[g]);
        }
        lemma_fold_label_count(y, d, dc, n, f, c);
        lemma_strided_props(h, n, f);
        let st = strided(h, n, f);
        assert forall|i: int| 0 <= i < st.len() implies y[#[trigger] st[i] as int] == hc by {
            let k = choose|k: int| 0 <= k < h.len() && h[k] == st[i];
            assert(sg[sg.len() - 1][k] == st[i]);
        }
        lemma_label_count_uniform(y, st, hc, c);
        lemma_label_count_concat(y, fold_of(d, n, f), st, c);
        assert(h.len() == count_of(y, hc));
        if hc == c {
            assert(cls[cls.len() - 1] == c);
            assert(!dc.contains(c)) by {
                if dc.contains(c) {
                    let k = choose|k: int| 0 <= k < dc.len() && dc[k] == c;
                    assert(cls[k] == cls[cls.len() - 1]);
                }
            }
        } else {
            assert(cls.contains(c) <==> dc.contains(c)) by {
                if cls.contains(c) {
                    let k = choose|k: int| 0 <= k < cls.len() && cls[k] == c;
                    assert(dc[k] == c);
                }
                if dc.contains(c) {
                    let k = choose|k: int| 0 <= k < dc.len() && dc[k] == c;
                    assert(cls[k] == c);
                }
            }
        }
    }
}

proof fn lemma_count_absent(y: Seq<usize>, c: usize)
    requires
        !y.contains(c),
    ensures
        count_of(y, c) == 0,
    decreases y.len(),
{
    if y.len() > 0 {
        assert(y[y.len() - 1] == y.last());
        assert forall|k: int| 0 <= k < y.drop_last().len() implies y.drop_last()[k] != c by {
            assert(y.drop_last()[k] == y[k]);
        }
        lemma_count_absent(y.drop_last(), c);
    }
}

// ---------------------------------------------------------------------------
// The laws
// ---------------------------------------------------------------------------

/// Whatever order the shuffle left the classes in, the test folds together
/// hold every sample index exactly once.
pub proof fn law_test_folds_partition_samples(y: Seq<usize>, shuffled: bool, sg: Seq<Seq<usize>>, n: nat)
    requires
        y.len() <= usize::MAX + 1,
        n > 0,
        arranged(y, shuffled, sg),
    ensures
        joined(test_folds(sg, n)) == sample_indices(y.len()),
{
    lemma_test_folds_joined(sg, n);
    lemma_joined_same_multisets(sg, class_groups_of(y));
    lemma_class_groups_joined(y);
}

/// Whatever order the shuffle left the classes in, split `f` trains and
/// tests on every sample index exactly once between them.
pub proof fn law_split_uses_every_sample_once(
    y: Seq<usize>,
    shuffled: bool,
    sg: Seq<Seq<usize>>,
    n: nat,
    f: int,
)
    requires
        y.len() <= usize::MAX + 1,
        0 <= f < n,
        arranged(y, shuffled, sg),
    ensures
        all_but(test_folds(sg, n), f).to_multiset().add(fold_of(sg, n, f as nat).to_multiset())
            == sample_indices(y.len()),
{
    law_test_folds_partition_samples(y, shuffled, sg, n);
    lemma_all_but_and_fold(test_folds(sg, n), f);
}

/// Whatever order the shuffle left the classes in, test fold `f` holds, of
/// every class `c`, exactly as many samples as there are positions below the
/// class's size that leave the remainder `f` when divided by `n`.
pub proof fn law_folds_stratified(
    y: Seq<usize>,
    shuffled: bool,
    sg: Seq<Seq<usize>>,
    n: nat,
    f: nat,
    c: usize,
)
    requires
        y.len() <= usize::MAX + 1,
        arranged(y, shuffled, sg),
    ensures
        label_count(y, fold_of(sg, n, f), c) == stride_count(count_of(y, c), n, f),
{
    broadcast use vstd::seq_lib::group_to_multiset_ensures;

    let cls = classes_in_order(y);
    let cg = class_groups_of(y);
    lemma_classes_distinct(y);
    assert forall|g: int, i: int| 0 <= g < sg.len() && 0 <= i < sg[g].len() implies y[#[trigger] sg[g][i] as int] == cls[g] by {
        lemma_positions_props(y, cls[g]);
        assert(cg[g] == positions_of(y, cls[g]));
        assert(sg[g].contains(sg[g][i]));
        assert(sg[g].to_multiset().count(sg[g][i]) > 0);
        assert(cg[g].to_multiset().count(sg[g][i]) > 0);
        assert(cg[g].contains(sg[g][i]));
        let k = choose|k: int| 0 <= k < cg[g].len() && cg[g][k] == sg[g][i];
        assert(positions_of(y, cls[g])[k] == sg[g][i]);
    }
    assert forall|g: int| 0 <= g < sg.len() implies (#[trigger] sg[g]).len() == count_of(y, cls[g]) by {
        lemma_positions_props(y, cls[g]);
        assert(cg[g] == positions_of(y, cls[g]));
        assert(sg[g].to_multiset().len() == cg[g].to_multiset().len());
    }
    lemma_fold_label_count(y, sg, cls, n, f, c);
    lemma_classes_contains(y, c);
    if !cls.contains(c) {
        lemma_count_absent(y, c);
    }
}

/// The folds share each class evenly: of `m` samples dealt out in turn
/// over `n` folds, fold `f` gets `(m + n - 1 - f) / n`, so that no two folds
/// differ by more than one.
pub proof fn law_stride_count_balanced(m: nat, n: nat, f: nat)
    requires
        f < n,
    ensures
        stride_count(m, n, f) == (m + n - 1 - f) / (n as int),
    decreases m,
{
    let nn = n as int;
    if m == 0 {
        assert((nn - 1 - f) / nn == 0) by (nonlinear_arith)
            requires
                0 <= f < nn,
        ;
    } else {
        let k = (m - 1) as nat;
        law_stride_count_balanced(k, n, f);
        let q = k + nn - 1 - f;
        assert(q >= 0);
        assert((q + 1) / nn == q / nn + if k % n == f {
            1int
        } else {
            0int
        }) by {
            vstd::arithmetic::div_mod::lemma_fundamental_div_mod(q, nn);
            vstd::arithmetic::div_mod::lemma_fundamental_div_mod(k as int, nn);
            vstd::arithmetic::div_mod::lemma_fundamental_div_mod(q + 1, nn);
            let a = q / nn;
            let r = q % nn;
            let a1 = (q + 1) / nn;
            let r1 = (q + 1) % nn;
            let b = (k as int) / nn;
            let s = (k as int) % nn;
            assert(0 <= r < nn && 0 <= r1 < nn && 0 <= s < nn);
            // q = k + (n - 1 - f): r == (s + n - 1 - f) mod n
            if s == f {
                assert(q == nn * b + nn - 1);
                assert(nn * a + r == nn * b + nn - 1);
                assert(nn * a1 + r1 == nn * b + nn);
                assert(a1 == b + 1 && r1 == 0) by (nonlinear_arith)
                    requires
                        nn * a1 + r1 == nn * b + nn,
                        0 <= r1 < nn,
                ;
                assert(a == b && r == nn - 1) by (nonlinear_arith)
                    requires
                        nn * a + r == nn * b + nn - 1,
                        0 <= r < nn,
                ;
            } else {
                assert(nn * a1 + r1 == nn * a + r + 1);
                assert(r != nn - 1) by {
                    if r == nn - 1 {
                        // then q + 1 is a multiple of n, so s == f
                        assert(nn * (a + 1) == q + 1) by (nonlinear_arith)
                            requires
                                q == nn * a + r,
                                r == nn - 1,
                        ;
                        assert(nn * (a + 1) == nn * b + s + nn - f);
                        assert(s == f) by (nonlinear_arith)
                            requires
                                nn * (a + 1) == nn * b + s + nn - f,
                                0 <= s < nn,
                                0 <= f < nn,
                        ;
                    }
                }
                assert(a1 == a && r1 == r + 1) by (nonlinear_arith)
                    requires
                        nn * a1 + r1 == nn * a + r + 1,
                        0 <= r1 < nn,
                        0 <= r < nn - 1,
                ;
            }
        }
    }
}

} // verus!
