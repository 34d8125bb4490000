//! Stratified k-fold cross-validation: grouping samples by class, dealing
//! each class out over the folds in turn, and building train/test splits.
use vstd::prelude::*;
use crate::generator::{copy_features, rows};
use crate::fold_laws::{
    count_of,
    joined,
    label_count,
    law_folds_stratified,
    law_split_uses_every_sample_once,
    law_test_folds_partition_samples,
    sample_indices,
    stride_count,
};
use rand::seq::SliceRandom;
use rand::SeedableRng;
use rand_chacha::ChaCha20Rng;

verus! {

// ---------------------------------------------------------------------------
// Grouping samples by class
// ---------------------------------------------------------------------------

/// The positions in `y` that hold the label `c`, in increasing order.
pub open spec fn positions_of(y: Seq<usize>, c: usize) -> Seq<usize>
    decreases y.len(),
{
    if y.len() == 0 {
        Seq::empty()
    } else if y.last() == c {
        positions_of(y.drop_last(), c).push((y.len() - 1) as usize)
    } else {
        positions_of(y.drop_last(), c)
    }
}

/// The distinct labels of `y` in the order of their first appearance.
pub open spec fn classes_in_order(y: Seq<usize>) -> Seq<usize>
    decreases y.len(),
{
    if y.len() == 0 {
        Seq::empty()
    } else if classes_in_order(y.drop_last()).contains(y.last()) {
        classes_in_order(y.drop_last())
    } else {
        classes_in_order(y.drop_last()).push(y.last())
    }
}

/// The sample positions of each class, classes in the order of their first
/// appearance.
pub open spec fn class_groups_of(y: Seq<usize>) -> Seq<Seq<usize>> {
    classes_in_order(y).map_values(|c: usize| positions_of(y, c))
}

proof fn lemma_take_step<A>(y: Seq<A>, i: int)
    requires
        0 <= i < y.len(),
    ensures
        y.take(i + 1).drop_last() == y.take(i),
        y.take(i + 1).last() == y[i],
        y.take(i + 1).len() == i + 1,
{
    assert(y.take(i + 1).drop_last() =~= y.take(i));
}

/// A label that does not occur has no positions.
pub proof fn lemma_positions_absent(y: Seq<usize>, c: usize)
    requires
        !y.contains(c),
    ensures
        positions_of(y, c) == Seq::<usize>::empty(),
    decreases y.len(),
{
    if y.len() > 0 {
        assert(y[y.len() - 1] == y.last());
        assert forall|k: int| 0 <= k < y.drop_last().len() implies y.drop_last()[k] != c by {
            assert(y.drop_last()[k] == y[k]);
        }
        lemma_positions_absent(y.drop_last(), c);
    }
}

/// The sample positions of each class of `y`, classes in the order in which
/// they first appear, positions in increasing order.
pub fn class_groups(y: &Vec<usize>) -> (r: Vec<Vec<usize>>)
    ensures
        rows(r@) == class_groups_of(y@),
{
    let mut labels: Vec<usize> = Vec::new();
    let mut groups: Vec<Vec<usize>> = Vec::new();
    let mut i: usize = 0;
    while i < y.len()
        invariant
            i <= y@.len(),
            labels@ == classes_in_order(y@.take(i as int)),
            groups@.len() == labels@.len(),
            forall|j: int|
                0 <= j < groups@.len() ==> #[trigger] groups@[j]@ == positions_of(
                    y@.take(i as int),
                    labels@[j],
                ),
            forall|a: int, b: int|
                0 <= a < b < labels@.len() ==> #[trigger] labels@[a] != #[trigger] labels@[b],
            forall|k: int| 0 <= k < i ==> labels@.contains(#[trigger] y@[k]),
        decreases y@.len() - i,
    {
        let v = y[i];
        let ghost s0 = y@.take(i as int);
        let ghost s1 = y@.take(i + 1);
        proof {
            lemma_take_step(y@, i as int);
        }
        let mut j: usize = 0;
        while j < labels.len() && labels[j] != v
            invariant
                j <= labels@.len(),
                forall|q: int| 0 <= q < j ==> labels@[q] != v,
            decreases labels@.len() - j,
        {
            j += 1;
        }
        let ghost labels0 = labels@;
        let ghost groups0 = rows(groups@);
        if j < labels.len() {
            groups[j].push(i);
            proof {
                assert(labels0.contains(v));
                assert(classes_in_order(s1) == labels0);
                assert forall|q: int| 0 <= q < groups@.len() implies #[trigger] groups@[q]@
                    == positions_of(s1, labels@[q]) by {
                    assert(groups0[q] == positions_of(s0, labels0[q]));
                    if q != j {
                        assert(labels0[q] != v);
                    }
                }
            }
        } else {
            proof {
                assert(!labels0.contains(v));
                assert forall|k: int| 0 <= k < s0.len() implies s0[k] != v by {
                    assert(s0[k] == y@[k]);
                    assert(labels0.contains(y@[k]));
                }
                lemma_positions_absent(s0, v);
            }
            labels.push(v);
            let mut g: Vec<usize> = Vec::new();
            g.push(i);
            groups.push(g);
            proof {
                assert(classes_in_order(s1) == labels0.push(v));
                assert(positions_of(s1, v) =~= seq![i]);
                assert forall|q: int| 0 <= q < groups@.len() implies #[trigger] groups@[q]@
                    == positions_of(s1, labels@[q]) by {
                    if q < groups0.len() {
                        assert(groups0[q] == positions_of(s0, labels0[q]));
                        assert(labels0[q] != v);
                    }
                }
            }
        }
        proof {
            assert forall|k: int| 0 <= k < i + 1 implies labels@.contains(#[trigger] y@[k]) by {
                if k < i {
                    let q = choose|q: int| 0 <= q < labels0.len() && labels0[q] == y@[k];
                    assert(labels@[q] == y@[k]);
                } else {
                    if j < labels0.len() {
                        assert(labels@[j as int] == v);
                    } else {
                        assert(labels@[labels0.len() as int] == v);
                    }
                }
            }
        }
        i += 1;
    }
    proof {
        assert(y@.take(y@.len() as int) =~= y@);
        assert(rows(groups@) =~= class_groups_of(y@));
    }
    groups
}

// ---------------------------------------------------------------------------
// Dealing groups out over folds
// ---------------------------------------------------------------------------

/// The elements of `g` at the positions `f`, `f + n`, `f + 2n`, ...
pub open spec fn strided(g: Seq<usize>, n: nat, f: nat) -> Seq<usize>
    decreases g.len(),
{
    if g.len() == 0 {
        Seq::empty()
    } else if ((g.len() - 1) as nat) % n == f {
        strided(g.drop_last(), n, f).push(g.last())
    } else {
        strided(g.drop_last(), n, f)
    }
}

/// Fold `f` of `n`: from every group in turn, the elements at the positions
/// `f`, `f + n`, `f + 2n`, ...
pub open spec fn fold_of(groups: Seq<Seq<usize>>, n: nat, f: nat) -> Seq<usize>
    decreases groups.len(),
{
    if groups.len() == 0 {
        Seq::empty()
    } else {
        fold_of(groups.drop_last(), n, f) + strided(groups.last(), n, f)
    }
}

/// The `n` folds that the groups are dealt into.
pub open spec fn test_folds(groups: Seq<Seq<usize>>, n: nat) -> Seq<Seq<usize>> {
    Seq::new(n, |f: int| fold_of(groups, n, f as nat))
}

/// All folds but fold `f`, joined in order.
pub open spec fn all_but(folds: Seq<Seq<usize>>, f: int) -> Seq<usize>
    decreases folds.len(),
{
    if folds.len() == 0 {
        Seq::empty()
    } else if folds.len() - 1 == f {
        all_but(folds.drop_last(), f)
    } else {
        all_but(folds.drop_last(), f) + folds.last()
    }
}

/// The contents of a split as sequences: (train, test).
pub open spec fn split_views(r: Seq<(Vec<usize>, Vec<usize>)>) -> Seq<(Seq<usize>, Seq<usize>)> {
    r.map_values(|p: (Vec<usize>, Vec<usize>)| (p.0@, p.1@))
}

/// The test parts of the splits.
pub open spec fn test_parts(r: Seq<(Seq<usize>, Seq<usize>)>) -> Seq<Seq<usize>> {
    r.map_values(|p: (Seq<usize>, Seq<usize>)| p.1)
}

/// `r` holds the `n` train/test splits for the groups: split `f` tests on
/// fold `f` and trains on all other folds, in fold order.
pub open spec fn splits_of(r: Seq<(Seq<usize>, Seq<usize>)>, groups: Seq<Seq<usize>>, n: nat) -> bool {
    &&& r.len() == n
    &&& forall|f: int|
        0 <= f < n ==> #[trigger] r[f] == (
            all_but(test_folds(groups, n), f),
            fold_of(groups, n, f as nat),
        )
}

proof fn lemma_fold_step(groups: Seq<Seq<usize>>, gi: int, n: nat, f: nat)
    requires
        0 <= gi < groups.len(),
    ensures
        fold_of(groups.take(gi + 1), n, f) == fold_of(groups.take(gi), n, f) + strided(
            groups[gi],
            n,
            f,
        ),
{
    lemma_take_step(groups, gi);
}

proof fn lemma_strided_step(g: Seq<usize>, e: int, n: nat, f: nat)
    requires
        0 <= e < g.len(),
    ensures
        strided(g.take(e + 1), n, f) == if (e as nat) % n == f {
            strided(g.take(e), n, f).push(g[e])
        } else {
            strided(g.take(e), n, f)
        },
{
    lemma_take_step(g, e);
}

proof fn lemma_all_but_step(folds: Seq<Seq<usize>>, j: int, f: int)
    requires
        0 <= j < folds.len(),
    ensures
        all_but(folds.take(j + 1), f) == if j == f {
            all_but(folds.take(j), f)
        } else {
            all_but(folds.take(j), f) + folds[j]
        },
{
    lemma_take_step(folds, j);
}

/// Deals the groups out over `n` folds, each group in turn, its elements
/// going to folds `0, 1, ..., n - 1, 0, 1, ...`; then builds the `n` splits,
/// split `f` testing on fold `f` and training on the other folds joined in
/// order. Each split is `(train, test)`.
pub fn assign_folds(groups: &Vec<Vec<usize>>, n: usize) -> (r: Vec<(Vec<usize>, Vec<usize>)>)
    requires
        n > 0 || forall|g: int| 0 <= g < groups@.len() ==> (#[trigger] groups@[g])@.len() == 0,
    ensures
        splits_of(split_views(r@), rows(groups@), n as nat),
{
    let ghost gs = rows(groups@);
    let mut folds: Vec<Vec<usize>> = Vec::new();
    let mut f: usize = 0;
    while f < n
        invariant
            f <= n,
            folds@.len() == f,
            forall|q: int| 0 <= q < f ==> (#[trigger] folds@[q])@ == Seq::<usize>::empty(),
        decreases n - f,
    {
        folds.push(Vec::new());
        f += 1;
    }
    let mut gi: usize = 0;
    while gi < groups.len()
        invariant
            gs == rows(groups@),
            n > 0 || forall|g: int| 0 <= g < groups@.len() ==> (#[trigger] groups@[g])@.len() == 0,
            gi <= groups@.len(),
            folds@.len() == n,
            forall|q: int|
                0 <= q < n ==> (#[trigger] folds@[q])@ == fold_of(
                    gs.take(gi as int),
                    n as nat,
                    q as nat,
                ),
        decreases groups@.len() - gi,
    {
        let g = &groups[gi];
        let ghost gv = g@;
        assert(gs[gi as int] == gv);
        let mut e: usize = 0;
        while e < g.len()
            invariant
                gs == rows(groups@),
                gv == g@,
                gv == gs[gi as int],
                n > 0 || gv.len() == 0,
                e <= gv.len(),
                folds@.len() == n,
                gi < gs.len(),
                forall|q: int|
                    0 <= q < n ==> (#[trigger] folds@[q])@ == fold_of(
                        gs.take(gi as int),
                        n as nat,
                        q as nat,
                    ) + strided(gv.take(e as int), n as nat, q as nat),
            decreases gv.len() - e,
        {
            let q = e % n;
            let ghost folds0 = folds@;
            let x = g[e];
            folds[q].push(x);
            proof {
                assert forall|p: int| 0 <= p < n implies (#[trigger] folds@[p])@ == fold_of(
                    gs.take(gi as int),
                    n as nat,
                    p as nat,
                ) + strided(gv.take(e + 1), n as nat, p as nat) by {
                    lemma_strided_step(gv, e as int, n as nat, p as nat);
                    if p == q {
                        assert(folds@[p]@ == folds0[p]@.push(x));
                    } else {
                        assert(folds@[p] == folds0[p]);
                    }
                }
            }
            e += 1;
        }
        proof {
            assert(gv.take(gv.len() as int) =~= gv);
            assert forall|p: int| 0 <= p < n implies (#[trigger] folds@[p])@ == fold_of(
                gs.take(gi + 1),
                n as nat,
                p as nat,
            ) by {
                lemma_fold_step(gs, gi as int, n as nat, p as nat);
            }
        }
        gi += 1;
    }
    proof {
        assert(gs.take(gs.len() as int) =~= gs);
        assert(rows(folds@) =~= test_folds(gs, n as nat));
    }
    let ghost tf = test_folds(gs, n as nat);
    let mut r: Vec<(Vec<usize>, Vec<usize>)> = Vec::new();
    let mut f: usize = 0;
    while f < n
        invariant
            f <= n,
            folds@.len() == n,
            rows(folds@) == tf,
            tf == test_folds(gs, n as nat),
            r@.len() == f,
            forall|p: int|
                0 <= p < f ==> #[trigger] split_views(r@)[p] == (
                    all_but(tf, p),
                    fold_of(gs, n as nat, p as nat),
                ),
        decreases n - f,
    {
        let test = copy_features(&folds[f]);
        assert(test@ == tf[f as int]);
        let mut train: Vec<usize> = Vec::new();
        let mut j: usize = 0;
        proof {
            assert(tf.take(0) =~= Seq::<Seq<usize>>::empty());
        }
        while j < n
            invariant
                j <= n,
                folds@.len() == n,
                rows(folds@) == tf,
                tf.len() == n,
                train@ == all_but(tf.take(j as int), f as int),
            decreases n - j,
        {
            proof {
                lemma_all_but_step(tf, j as int, f as int);
            }
            if j != f {
                let mut c = copy_features(&folds[j]);
                assert(c@ == tf[j as int]);
                train.append(&mut c);
            }
            j += 1;
        }
        proof {
            assert(tf.take(n as int) =~= tf);
        }
        let ghost r0 = r@;
        let ghost pair = (train@, test@);
        proof {
            assert(tf[f as int] == fold_of(gs, n as nat, f as nat));
            assert(pair == (all_but(tf, f as int), fold_of(gs, n as nat, f as nat)));
        }
        r.push((train, test));
        proof {
            assert forall|p: int| 0 <= p < f + 1 implies #[trigger] split_views(r@)[p] == (
                all_but(tf, p),
                fold_of(gs, n as nat, p as nat),
            ) by {
                if p < f {
                    assert(r@[p] == r0[p]);
                    assert(split_views(r@)[p] == split_views(r0)[p]);
                } else {
                    assert(split_views(r@)[p] == pair);
                }
            }
        }
        f += 1;
    }
    r
}

// ---------------------------------------------------------------------------
// Shuffling
// ---------------------------------------------------------------------------

/// What shuffling `v` with the `rand_chacha` ChaCha20 generator seeded from
/// `seed` and set to the stream position `pos` (in 32-bit words) gives: the
/// shuffled sequence, and the stream position that the generator is left at.
pub uninterp spec fn seeded_shuffle(v: Seq<usize>, seed: u64, pos: u128) -> (Seq<usize>, u128);

/// `rand::seq::SliceRandom::shuffle` on the elements of `v`, with a
/// `rand_chacha::ChaCha20Rng` made by `SeedableRng::seed_from_u64(seed)` and
/// moved to the word position `pos` (`set_word_pos`); returns where the
/// generator's stream stands afterwards (`get_word_pos`). Stated: the result
/// is `seeded_shuffle` of the arguments (ChaCha20 is a counter-mode stream,
/// fixed by its seed and position), and `v` keeps its elements, each as often
/// (the shuffle only swaps). Which order comes out is not spelt out.
#[verifier::external_body]
fn shuffle_at(v: &mut Vec<usize>, seed: u64, pos: u128) -> (next: u128)
    ensures
        (final(v)@, next) == seeded_shuffle(old(v)@, seed, pos),
        final(v)@.to_multiset() == old(v)@.to_multiset(),
{
    let mut rng = ChaCha20Rng::seed_from_u64(seed);
    rng.set_word_pos(pos);
    v.as_mut_slice().shuffle(&mut rng);
    rng.get_word_pos()
}

/// The groups shuffled one after the other with one generator seeded from
/// `seed`, starting at the beginning of its stream; and where the stream
/// stands afterwards.
pub open spec fn shuffled_in_turn(gs: Seq<Seq<usize>>, seed: u64) -> (Seq<Seq<usize>>, u128)
    decreases gs.len(),
{
    if gs.len() == 0 {
        (Seq::empty(), 0u128)
    } else {
        let prev = shuffled_in_turn(gs.drop_last(), seed);
        let step = seeded_shuffle(gs.last(), seed, prev.1);
        (prev.0.push(step.0), step.1)
    }
}

/// Where the stream of one generator seeded from `seed` stands before the
/// `g`-th of the groups `gs` is shuffled, when they are shuffled one after the
/// other from the start of the stream.
pub open spec fn stream_before(gs: Seq<Seq<usize>>, seed: u64, g: nat) -> u128
    decreases g,
{
    if g == 0 {
        0
    } else {
        seeded_shuffle(gs[g - 1], seed, stream_before(gs, seed, (g - 1) as nat)).1
    }
}

proof fn lemma_stream_before_prefix(gs: Seq<Seq<usize>>, seed: u64, g: nat)
    requires
        gs.len() > 0,
        g < gs.len(),
    ensures
        stream_before(gs.drop_last(), seed, g) == stream_before(gs, seed, g),
    decreases g,
{
    if g > 0 {
        lemma_stream_before_prefix(gs, seed, (g - 1) as nat);
        assert(gs.drop_last()[g - 1] == gs[g - 1]);
    }
}

/// Shuffling groups in turn shuffles every one of them, each with the
/// generator where the shuffles of the groups before it left the stream;
/// the stream ends where the last shuffle left it.
pub proof fn law_shuffled_in_turn_shuffles_each(gs: Seq<Seq<usize>>, seed: u64)
    ensures
        shuffled_in_turn(gs, seed).0.len() == gs.len(),
        forall|g: int|
            0 <= g < gs.len() ==> #[trigger] shuffled_in_turn(gs, seed).0[g] == seeded_shuffle(
                gs[g],
                seed,
                stream_before(gs, seed, g as nat),
            ).0,
        shuffled_in_turn(gs, seed).1 == stream_before(gs, seed, gs.len()),
    decreases gs.len(),
{
    if gs.len() > 0 {
        let d = gs.drop_last();
        law_shuffled_in_turn_shuffles_each(d, seed);
        let l = (gs.len() - 1) as nat;
        lemma_stream_before_prefix(gs, seed, l);
        assert forall|g: int| 0 <= g < gs.len() implies #[trigger] shuffled_in_turn(gs, seed).0[g]
            == seeded_shuffle(gs[g], seed, stream_before(gs, seed, g as nat)).0 by {
            if g < l {
                lemma_stream_before_prefix(gs, seed, g as nat);
                assert(d[g] == gs[g]);
                assert(shuffled_in_turn(gs, seed).0[g] == shuffled_in_turn(d, seed).0[g]);
            }
        }
    }
}

/// A shuffling splitter shuffles the samples of every class before it deals
/// them out, not only some: the `g`-th group dealt is the positions of the
/// `g`-th class shuffled with the generator at the stream position that the
/// classes before it left.
pub proof fn law_every_class_shuffled(y: Seq<usize>, seed: u64)
    ensures
        dealt_groups(y, true, seed).len() == class_groups_of(y).len(),
        forall|g: int|
            0 <= g < class_groups_of(y).len() ==> #[trigger] dealt_groups(y, true, seed)[g]
                == seeded_shuffle(
                class_groups_of(y)[g],
                seed,
                stream_before(class_groups_of(y), seed, g as nat),
            ).0,
        dealt_groups(y, false, seed) == class_groups_of(y),
{
    law_shuffled_in_turn_shuffles_each(class_groups_of(y), seed);
}

/// The class groups of `y` as they are dealt out: shuffled in turn with the
/// generator seeded from `seed` when shuffling, else as they are.
pub open spec fn dealt_groups(y: Seq<usize>, shuffled: bool, seed: u64) -> Seq<Seq<usize>> {
    if shuffled {
        shuffled_in_turn(class_groups_of(y), seed).0
    } else {
        class_groups_of(y)
    }
}

/// `sg` is how the class groups of `y` stand before they are dealt out:
/// one group per class, in the same order, each holding the positions of its
/// class in some order (in increasing order when nothing is shuffled).
pub open spec fn arranged(y: Seq<usize>, shuffled: bool, sg: Seq<Seq<usize>>) -> bool {
    &&& sg.len() == class_groups_of(y).len()
    &&& forall|g: int|
        0 <= g < sg.len() ==> (#[trigger] sg[g]).to_multiset() == class_groups_of(
            y,
        )[g].to_multiset()
    &&& !shuffled ==> sg == class_groups_of(y)
}

/// Stratified k-fold cross-validation: every fold gets each class's samples
/// in turn, so that each class is spread evenly over the folds.
pub struct StratifiedKFold {
    n_splits: usize,
    shuffle: bool,
}

impl StratifiedKFold {
    /// The number of folds.
    pub closed spec fn folds(self) -> nat {
        self.n_splits as nat
    }

    /// Whether each class's samples are shuffled before they are dealt out.
    pub closed spec fn shuffles(self) -> bool {
        self.shuffle
    }

    /// A splitter into `n_splits` folds, shuffling within classes or not.
    pub fn new(n_splits: usize, shuffle: bool) -> (r: Self)
        ensures
            r.folds() == n_splits,
            r.shuffles() == shuffle,
    {
        StratifiedKFold { n_splits, shuffle }
    }

    /// The train/test splits of the samples labelled by `y`: split `f`
    /// tests on fold `f` and trains on the other folds. The samples of each
    /// class, shuffled with a generator seeded by `seed` if the splitter
    /// shuffles, are dealt out over the folds in turn, class after class.
    pub fn split(&self, y: &Vec<usize>, seed: u64) -> (r: Vec<(Vec<usize>, Vec<usize>)>)
        requires
            self.folds() > 0 || y@.len() == 0,
        ensures
            splits_of(split_views(r@), dealt_groups(y@, self.shuffles(), seed), self.folds()),
            arranged(y@, self.shuffles(), dealt_groups(y@, self.shuffles(), seed)),
            r@.len() == self.folds(),
            forall|f: int|
                0 <= f < self.folds() ==> (#[trigger] split_views(r@)[f]).0.to_multiset().add(
                    split_views(r@)[f].1.to_multiset(),
                ) == sample_indices(y@.len()),
            joined(test_parts(split_views(r@))) == sample_indices(y@.len()),
            forall|f: int, c: usize|
                0 <= f < self.folds() ==> #[trigger] label_count(y@, split_views(r@)[f].1, c)
                    == stride_count(count_of(y@, c), self.folds(), f as nat),
    {
        let mut groups = class_groups(y);
        let ghost cg = class_groups_of(y@);
        if self.shuffle {
            let mut pos: u128 = 0;
            let mut gi: usize = 0;
            while gi < groups.len()
                invariant
                    gi <= groups@.len(),
                    groups@.len() == cg.len(),
                    (rows(groups@).take(gi as int), pos) == shuffled_in_turn(cg.take(gi as int), seed),
                    forall|g: int|
                        0 <= g < gi ==> (#[trigger] rows(groups@)[g]).to_multiset()
                            == cg[g].to_multiset(),
                    forall|g: int| gi <= g < groups@.len() ==> #[trigger] rows(groups@)[g] == cg[g],
                decreases groups@.len() - gi,
            {
                let ghost before = rows(groups@);
                assert(rows(groups@)[gi as int] == cg[gi as int]);
                let mut g = copy_features(&groups[gi]);
                let ghost g0 = g@;
                let ghost pos0 = pos;
                pos = shuffle_at(&mut g, seed, pos);
                let ghost g1 = g@;
                groups.set(gi, g);
                assert(rows(groups@)[gi as int] == g1);
                assert(g1.to_multiset() == g0.to_multiset());
                proof {
                    assert(groups@.len() == before.len());
                    assert(rows(groups@)[gi as int].to_multiset() == cg[gi as int].to_multiset());
                    assert forall|g: int| 0 <= g < gi + 1 implies (#[trigger] rows(groups@)[g]).to_multiset()
                        == cg[g].to_multiset() by {
                        if g < gi {
                            assert(rows(groups@)[g] == before[g]);
                        }
                    }
                    assert forall|g: int| gi + 1 <= g < groups@.len() implies #[trigger] rows(groups@)[g]
                        == cg[g] by {
                        assert(rows(groups@)[g] == before[g]);
                    }
                    let t = cg.take(gi + 1);
                    assert(t.drop_last() =~= cg.take(gi as int));
                    assert(t.last() == g0);
                    assert(rows(groups@).take(gi + 1) =~= before.take(gi as int).push(g1));
                }
                gi += 1;
            }
            proof {
                assert(cg.take(cg.len() as int) =~= cg);
                assert(rows(groups@).take(cg.len() as int) =~= rows(groups@));
            }
        }
        proof {
            let sg = rows(groups@);
            if !self.shuffle {
                assert(sg =~= cg);
            }
            assert(sg == dealt_groups(y@, self.shuffle, seed));
            if self.n_splits == 0 {
                assert(y@ =~= Seq::<usize>::empty());
                assert(classes_in_order(y@) =~= Seq::<usize>::empty());
                assert(groups@.len() == 0);
            }
            assert(arranged(y@, self.shuffle, sg));
        }
        let r = assign_folds(&groups, self.n_splits);
        let y_len = y.len();
        proof {
            assert(y@.len() == y_len);
            let sg = rows(groups@);
            let n = self.folds();
            assert(arranged(y@, self.shuffles(), sg) && splits_of(split_views(r@), sg, n));
            let sv = split_views(r@);
            if n > 0 {
                law_test_folds_partition_samples(y@, self.shuffle, sg, n);
                assert(test_parts(sv) =~= test_folds(sg, n));
                assert forall|f: int| 0 <= f < n implies (#[trigger] sv[f]).0.to_multiset().add(
                    sv[f].1.to_multiset(),
                ) == sample_indices(y@.len()) by {
                    law_split_uses_every_sample_once(y@, self.shuffle, sg, n, f);
                }
                assert forall|f: int, c: usize| 0 <= f < n implies #[trigger] label_count(
                    y@,
                    sv[f].1,
                    c,
                ) == stride_count(count_of(y@, c), n, f as nat) by {
                    law_folds_stratified(y@, self.shuffle, sg, n, f as nat, c);
                }
            } else {
                assert(test_parts(sv) =~= Seq::<Seq<usize>>::empty());
                assert(y@.len() == 0);
            }
        }
        r
    }
}

/// The same labels, splitter settings and seed always give the same splits:
/// two results that both meet `split`'s contract are equal.
pub proof fn law_split_reproducible(
    a: Seq<(Seq<usize>, Seq<usize>)>,
    b: Seq<(Seq<usize>, Seq<usize>)>,
    y: Seq<usize>,
    shuffled: bool,
    seed: u64,
    n: nat,
)
    requires
        splits_of(a, dealt_groups(y, shuffled, seed), n),
        splits_of(b, dealt_groups(y, shuffled, seed), n),
    ensures
        a == b,
{
    assert(a =~= b);
}

} // verus!
