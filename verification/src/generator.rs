//! Enumeration of feature combinations, their count, and batching of the
//! enumeration for the task queue.
use vstd::prelude::*;
use crate::binomial::{binom, lemma_binom_step, lemma_binom_symmetric};

verus! {

// ---------------------------------------------------------------------------
// What a combination is
// ---------------------------------------------------------------------------

/// Every element of `c` lies in `lo..=hi` and the elements strictly increase.
pub open spec fn increasing_within(c: Seq<usize>, lo: int, hi: int) -> bool {
    &&& forall|i: int| 0 <= i < c.len() ==> lo <= #[trigger] c[i] <= hi
    &&& forall|i: int, j: int| 0 <= i < j < c.len() ==> #[trigger] c[i] < #[trigger] c[j]
}

/// `c` selects `k` distinct features out of the 1-indexed features `1..=n`,
/// listed in increasing order.
pub open spec fn is_combination(c: Seq<usize>, n: nat, k: nat) -> bool {
    c.len() == k && increasing_within(c, 1, n as int)
}

/// Strict lexicographic order on sequences of feature numbers.
pub open spec fn lex_less(a: Seq<usize>, b: Seq<usize>) -> bool
    decreases a.len(),
{
    a.len() > 0 && b.len() > 0 && (a[0] < b[0] || (a[0] == b[0] && lex_less(
        a.drop_first(),
        b.drop_first(),
    )))
}

/// Each element comes strictly before every later one, lexicographically.
pub open spec fn strictly_sorted(s: Seq<Seq<usize>>) -> bool {
    forall|i: int, j: int| 0 <= i < j < s.len() ==> #[trigger] lex_less(s[i], s[j])
}

/// `x` put in front of every sequence of `s`.
pub open spec fn prepend_all(x: usize, s: Seq<Seq<usize>>) -> Seq<Seq<usize>> {
    s.map_values(|c: Seq<usize>| seq![x] + c)
}

/// `p` put in front of every sequence of `s`.
pub open spec fn extend_all(p: Seq<usize>, s: Seq<Seq<usize>>) -> Seq<Seq<usize>> {
    s.map_values(|c: Seq<usize>| p + c)
}

/// The `k`-element increasing sequences over `lo..=n`, in lexicographic order:
/// first those that start with `lo`, then those that do not.
pub open spec fn combos_from(lo: int, n: int, k: nat) -> Seq<Seq<usize>>
    decreases k, n + 1 - lo,
{
    if k == 0 {
        seq![Seq::<usize>::empty()]
    } else if lo > n {
        Seq::empty()
    } else {
        prepend_all(lo as usize, combos_from(lo + 1, n, (k - 1) as nat)) + combos_from(
            lo + 1,
            n,
            k,
        )
    }
}

/// All selections of `k` features out of `1..=n`, in lexicographic order.
pub open spec fn all_combinations(n: nat, k: nat) -> Seq<Seq<usize>> {
    combos_from(1, n as int, k)
}

/// The contents of a vector of vectors, as sequences.
pub open spec fn rows(v: Seq<Vec<usize>>) -> Seq<Seq<usize>> {
    v.map_values(|r: Vec<usize>| r@)
}

// ---------------------------------------------------------------------------
// Facts about the enumeration
// ---------------------------------------------------------------------------

proof fn lemma_combos_valid(lo: int, n: int, k: nat)
    requires
        0 <= lo,
        n <= usize::MAX,
    ensures
        forall|i: int|
            0 <= i < combos_from(lo, n, k).len() ==> #[trigger] combos_from(lo, n, k)[i].len() == k
                && increasing_within(combos_from(lo, n, k)[i], lo, n),
    decreases k, n + 1 - lo,
{
    if k == 0 {
    } else if lo > n {
    } else {
        let a = combos_from(lo + 1, n, (k - 1) as nat);
        let b = combos_from(lo + 1, n, k);
        lemma_combos_valid(lo + 1, n, (k - 1) as nat);
        lemma_combos_valid(lo + 1, n, k);
        let s = combos_from(lo, n, k);
        let p = prepend_all(lo as usize, a);
        assert(s == p + b);
        assert forall|i: int| 0 <= i < s.len() implies #[trigger] s[i].len() == k
            && increasing_within(s[i], lo, n) by {
            if i < p.len() {
                let t = a[i];
                assert(s[i] == seq![lo as usize] + t);
                assert(increasing_within(t, lo + 1, n));
                let c = s[i];
                assert forall|x: int| 0 <= x < c.len() implies lo <= #[trigger] c[x] <= n by {
                    if x > 0 {
                        assert(c[x] == t[x - 1]);
                    }
                }
                assert forall|x: int, y: int| 0 <= x < y < c.len() implies #[trigger] c[x]
                    < #[trigger] c[y] by {
                    assert(c[y] == t[y - 1]);
                    if x > 0 {
                        assert(c[x] == t[x - 1]);
                    } else {
                        assert(t[y - 1] >= lo + 1);
                    }
                }
            } else {
                assert(s[i] == b[i - p.len()]);
            }
        }
    }
}

proof fn lemma_combos_complete(lo: int, n: int, k: nat, c: Seq<usize>)
    requires
        0 <= lo,
        n <= usize::MAX,
        c.len() == k,
        increasing_within(c, lo, n),
    ensures
        combos_from(lo, n, k).contains(c),
    decreases k, n + 1 - lo,
{
    if k == 0 {
        assert(c =~= Seq::<usize>::empty());
        assert(combos_from(lo, n, k)[0] == c);
    } else {
        assert(lo <= c[0] <= n);
        let a = combos_from(lo + 1, n, (k - 1) as nat);
        let b = combos_from(lo + 1, n, k);
        let p = prepend_all(lo as usize, a);
        let s = combos_from(lo, n, k);
        assert(s == p + b);
        if c[0] == lo {
            let t = c.drop_first();
            assert forall|x: int| 0 <= x < t.len() implies lo + 1 <= #[trigger] t[x] <= n by {
                assert(t[x] == c[x + 1]);
                assert(c[0] < c[x + 1]);
            }
            assert forall|x: int, y: int| 0 <= x < y < t.len() implies #[trigger] t[x]
                < #[trigger] t[y] by {
                assert(t[x] == c[x + 1]);
                assert(t[y] == c[y + 1]);
            }
            lemma_combos_complete(lo + 1, n, (k - 1) as nat, t);
            let idx = choose|idx: int| 0 <= idx < a.len() && a[idx] == t;
            assert(p[idx] == seq![lo as usize] + t);
            assert(seq![lo as usize] + t =~= c);
            assert(s[idx] == c);
        } else {
            assert forall|x: int| 0 <= x < c.len() implies lo + 1 <= #[trigger] c[x] <= n by {
                if x > 0 {
                    assert(c[0] < c[x]);
                }
            }
            lemma_combos_complete(lo + 1, n, k, c);
            let idx = choose|idx: int| 0 <= idx < b.len() && b[idx] == c;
            assert(s[p.len() + idx] == c);
        }
    }
}

proof fn lemma_lex_prepend(x: usize, a: Seq<usize>, b: Seq<usize>)
    requires
        lex_less(a, b),
    ensures
        lex_less(seq![x] + a, seq![x] + b),
{
    assert((seq![x] + a).drop_first() =~= a);
    assert((seq![x] + b).drop_first() =~= b);
}

proof fn lemma_combos_sorted(lo: int, n: int, k: nat)
    requires
        0 <= lo,
        n <= usize::MAX,
    ensures
        strictly_sorted(combos_from(lo, n, k)),
    decreases k, n + 1 - lo,
{
    if k == 0 {
    } else if lo > n {
    } else {
        let a = combos_from(lo + 1, n, (k - 1) as nat);
        let b = combos_from(lo + 1, n, k);
        lemma_combos_sorted(lo + 1, n, (k - 1) as nat);
        lemma_combos_sorted(lo + 1, n, k);
        lemma_combos_valid(lo + 1, n, k);
        let p = prepend_all(lo as usize, a);
        let s = combos_from(lo, n, k);
        assert(s == p + b);
        assert forall|i: int, j: int| 0 <= i < j < s.len() implies #[trigger] lex_less(
            s[i],
            s[j],
        ) by {
            if j < p.len() {
                assert(lex_less(a[i], a[j]));
                lemma_lex_prepend(lo as usize, a[i], a[j]);
                assert(s[i] == seq![lo as usize] + a[i]);
                assert(s[j] == seq![lo as usize] + a[j]);
            } else if i < p.len() {
                let bj = b[j - p.len()];
                assert(s[j] == bj);
                assert(bj.len() == k);
                assert(increasing_within(bj, lo + 1, n));
                assert(lo + 1 <= bj[0]);
                assert(s[i] == seq![lo as usize] + a[i]);
                assert(s[i][0] == lo);
            } else {
                assert(s[i] == b[i - p.len()]);
                assert(s[j] == b[j - p.len()]);
                assert(lex_less(b[i - p.len()], b[j - p.len()]));
            }
        }
    }
}

proof fn lemma_combos_len(lo: int, n: int, k: nat)
    requires
        0 <= lo <= n + 1,
    ensures
        combos_from(lo, n, k).len() == binom((n + 1 - lo) as nat, k),
    decreases k, n + 1 - lo,
{
    if k == 0 {
    } else if lo > n {
    } else {
        lemma_combos_len(lo + 1, n, (k - 1) as nat);
        lemma_combos_len(lo + 1, n, k);
        let m = (n + 1 - lo) as nat;
        assert(binom(m, k) == binom((m - 1) as nat, (k - 1) as nat) + binom((m - 1) as nat, k));
    }
}

/// The enumeration of all combinations is exactly the sequence of the
/// selections of `k` features out of `1..=n`, each once, in strictly
/// increasing lexicographic order, and there are `C(n, k)` of them.
pub proof fn lemma_all_combinations_characterized(n: nat, k: nat)
    requires
        n <= usize::MAX,
    ensures
        forall|i: int|
            0 <= i < all_combinations(n, k).len() ==> is_combination(
                #[trigger] all_combinations(n, k)[i],
                n,
                k,
            ),
        forall|c: Seq<usize>| is_combination(c, n, k) ==> all_combinations(n, k).contains(c),
        strictly_sorted(all_combinations(n, k)),
        all_combinations(n, k).len() == binom(n, k),
{
    lemma_combos_valid(1, n as int, k);
    lemma_combos_sorted(1, n as int, k);
    lemma_combos_len(1, n as int, k);
    assert forall|c: Seq<usize>| is_combination(c, n, k) implies all_combinations(
        n,
        k,
    ).contains(c) by {
        lemma_combos_complete(1, n as int, k, c);
    }
}

// ---------------------------------------------------------------------------
// Executable enumeration
// ---------------------------------------------------------------------------

/// A copy of a vector of feature numbers.
pub(crate) fn copy_features(v: &Vec<usize>) -> (r: Vec<usize>)
    ensures
        r@ == v@,
{
    let mut r: Vec<usize> = Vec::with_capacity(v.len());
    let mut i: usize = 0;
    while i < v.len()
        invariant
            i <= v.len(),
            r@ == v@.subrange(0, i as int),
        decreases v.len() - i,
    {
        r.push(v[i]);
        i += 1;
        assert(r@ =~= v@.subrange(0, i as int));
    }
    assert(r@ =~= v@);
    r
}

proof fn lemma_extend_split(p: Seq<usize>, x: usize, a: Seq<Seq<usize>>, b: Seq<Seq<usize>>)
    ensures
        extend_all(p, prepend_all(x, a) + b) == extend_all(p.push(x), a) + extend_all(p, b),
{
    let l = extend_all(p, prepend_all(x, a) + b);
    let r = extend_all(p.push(x), a) + extend_all(p, b);
    assert forall|i: int| 0 <= i < l.len() implies l[i] == r[i] by {
        if i < a.len() {
            assert(p + (seq![x] + a[i]) =~= p.push(x) + a[i]);
        }
    }
    assert(l =~= r);
}

/// Appends to `out` every `k`-element increasing sequence over `lo..=n`,
/// each put behind `prefix`, in lexicographic order.
fn push_combinations(
    lo: usize,
    n: usize,
    k: usize,
    prefix: &mut Vec<usize>,
    out: &mut Vec<Vec<usize>>,
)
    requires
        lo <= n + 1,
    ensures
        final(prefix)@ == old(prefix)@,
        rows(final(out)@) == rows(old(out)@) + extend_all(
            old(prefix)@,
            combos_from(lo as int, n as int, k as nat),
        ),
    decreases k,
{
    let ghost p0 = prefix@;
    let ghost out0 = rows(out@);
    if k == 0 {
        let c = copy_features(prefix);
        out.push(c);
        proof {
            assert(extend_all(p0, combos_from(lo as int, n as int, 0)) =~= seq![p0]);
            assert(rows(out@) =~= out0.push(p0));
        }
        return;
    }
    if lo > n {
        proof {
            assert(combos_from(lo as int, n as int, k as nat) =~= Seq::<Seq<usize>>::empty());
            assert(rows(out@) =~= out0 + extend_all(p0, combos_from(lo as int, n as int, k as nat)));
        }
        return;
    }
    let mut first = lo;
    proof {
        assert(rows(out@) + extend_all(p0, combos_from(first as int, n as int, k as nat)) =~= out0
            + extend_all(p0, combos_from(lo as int, n as int, k as nat)));
    }
    loop
        invariant_except_break
            out0 + extend_all(p0, combos_from(lo as int, n as int, k as nat)) == rows(out@)
                + extend_all(p0, combos_from(first as int, n as int, k as nat)),
        invariant
            lo <= first <= n,
            k > 0,
            prefix@ == p0,
        ensures
            out0 + extend_all(p0, combos_from(lo as int, n as int, k as nat)) == rows(out@),
        decreases n - first,
    {
        let ghost before = rows(out@);
        let ghost a = combos_from(first + 1, n as int, (k - 1) as nat);
        let ghost b = combos_from(first + 1, n as int, k as nat);
        prefix.push(first);
        if first < n {
            push_combinations(first + 1, n, k - 1, prefix, out);
        } else if k == 1 {
            let c = copy_features(prefix);
            out.push(c);
            proof {
                assert(a =~= seq![Seq::<usize>::empty()]);
                assert(extend_all(p0.push(first), a) =~= seq![p0.push(first)]);
                assert(rows(out@) =~= before.push(p0.push(first)));
            }
        } else {
            proof {
                assert(a =~= Seq::<Seq<usize>>::empty());
                assert(before + extend_all(p0.push(first), a) =~= before);
            }
        }
        let _ = prefix.pop();
        proof {
            assert(prefix@ =~= p0);
            assert(combos_from(first as int, n as int, k as nat) == prepend_all(first, a) + b);
            lemma_extend_split(p0, first, a, b);
            assert(rows(out@) == before + extend_all(p0.push(first), a));
            assert(before + extend_all(p0, combos_from(first as int, n as int, k as nat)) =~= rows(
                out@,
            ) + extend_all(p0, b));
        }
        if first == n {
            proof {
                assert(b =~= Seq::<Seq<usize>>::empty());
                assert(extend_all(p0, b) =~= Seq::<Seq<usize>>::empty());
                assert(rows(out@) + Seq::<Seq<usize>>::empty() =~= rows(out@));
            }
            break;
        }
        first += 1;
    }
}

/// All combinations of `k` features chosen from the features `1..=n`, as
/// increasing feature lists, in lexicographic order.
///
/// For `k == 0` this is the single empty selection; for `k > n` there is none.
pub fn generate_combinations(n: usize, k: usize) -> (r: Vec<Vec<usize>>)
    ensures
        rows(r@) == all_combinations(n as nat, k as nat),
        forall|i: int| 0 <= i < r@.len() ==> is_combination(#[trigger] r@[i]@, n as nat, k as nat),
        forall|c: Seq<usize>| is_combination(c, n as nat, k as nat) ==> rows(r@).contains(c),
        strictly_sorted(rows(r@)),
        r@.len() == binom(n as nat, k as nat),
{
    let mut out: Vec<Vec<usize>> = Vec::new();
    let mut prefix: Vec<usize> = Vec::new();
    push_combinations(1, n, k, &mut prefix, &mut out);
    proof {
        let e = extend_all(Seq::<usize>::empty(), all_combinations(n as nat, k as nat));
        assert forall|i: int| 0 <= i < e.len() implies e[i] == all_combinations(
            n as nat,
            k as nat,
        )[i] by {
            assert(Seq::<usize>::empty() + all_combinations(n as nat, k as nat)[i]
                =~= all_combinations(n as nat, k as nat)[i]);
        }
        assert(e =~= all_combinations(n as nat, k as nat));
        assert(rows(out@) =~= all_combinations(n as nat, k as nat));
        lemma_all_combinations_characterized(n as nat, k as nat);
        assert forall|i: int| 0 <= i < out@.len() implies is_combination(
            #[trigger] out@[i]@,
            n as nat,
            k as nat,
        ) by {
            assert(rows(out@)[i] == out@[i]@);
        }
    }
    out
}

// ---------------------------------------------------------------------------
// Counting
// ---------------------------------------------------------------------------

/// The smaller of `k` and `n - k`, for `k <= n`.
pub open spec fn smaller_side(n: nat, k: nat) -> nat {
    if k <= n - k {
        k
    } else {
        (n - k) as nat
    }
}

/// The multiplicative formula for `C(n, k)` runs without overflow: every
/// intermediate product `C(n, i) * (n - i)`, for `i` below the smaller of `k`
/// and `n - k`, fits in a `usize`.
pub open spec fn count_fits(n: nat, k: nat) -> bool {
    k > n || forall|i: nat| i < smaller_side(n, k) ==> #[trigger] binom(n, i) * (n - i) <= usize::MAX
}

/// `C(n, i)` does not fall while `i` climbs to `m`, for `m` at most half of `n`.
proof fn lemma_binom_rises(n: nat, j: nat, m: nat)
    requires
        j <= m,
        2 * m <= n,
    ensures
        binom(n, j) <= binom(n, m),
    decreases m - j,
{
    if j < m {
        lemma_binom_rises(n, j + 1, m);
        lemma_binom_step(n, j);
        let a = binom(n, j) as int;
        let b = binom(n, j + 1) as int;
        assert(a <= b) by (nonlinear_arith)
            requires
                a * (n - j) == b * (j + 1),
                n - j >= j + 1,
                j + 1 > 0,
                a >= 0,
                b >= 0,
        ;
    }
}

/// The count can be had whenever `k > n`, or the last step of the formula,
/// `m * C(n, m)` with `m` the smaller of `k` and `n - k`, fits in a `usize`:
/// every earlier intermediate product is no larger than that one.
pub proof fn law_count_fits_when_small(n: nat, k: nat)
    requires
        k > n || ({
            let m: nat = if k <= n - k {
                k
            } else {
                (n - k) as nat
            };
            m * binom(n, m) <= usize::MAX
        }),
    ensures
        count_fits(n, k),
{
    if k <= n {
        let m: nat = if k <= n - k {
            k
        } else {
            (n - k) as nat
        };
        assert forall|i: nat| i < smaller_side(n, k) implies #[trigger] binom(n, i) * (n - i)
            <= usize::MAX by {
            lemma_binom_step(n, i);
            lemma_binom_rises(n, i + 1, m);
            let b = binom(n, i + 1) as int;
            let c = binom(n, m) as int;
            assert(b * (i + 1) <= c * m) by (nonlinear_arith)
                requires
                    b <= c,
                    i + 1 <= m,
                    b >= 0,
            ;
        }
    }
}

/// `C(n, k)` by the multiplicative formula over the smaller side, or `None`
/// where an intermediate product would overflow a `usize`; never `None` when
/// `k > n` or when `m * C(n, m)` fits, `m` being the smaller of `k` and
/// `n - k`.
pub fn try_combination_count(n: usize, k: usize) -> (r: Option<usize>)
    ensures
        r is Some <==> count_fits(n as nat, k as nat),
        r matches Some(v) ==> v == binom(n as nat, k as nat),
        k > n || ({
            let m: nat = if k <= n - k {
                k as nat
            } else {
                (n - k) as nat
            };
            m * binom(n as nat, m) <= usize::MAX
        }) ==> r is Some,
{
    if k > n {
        proof {
            crate::binomial::lemma_binom_above(n as nat, k as nat);
        }
        return Some(0);
    }
    let k2 = if k <= n - k {
        k
    } else {
        n - k
    };
    let mut result: usize = 1;
    let mut i: usize = 0;
    while i < k2
        invariant
            k <= n,
            k2 == smaller_side(n as nat, k as nat),
            i <= k2,
            k2 <= n,
            result == binom(n as nat, i as nat),
            forall|j: nat| j < i ==> #[trigger] binom(n as nat, j) * (n - j) <= usize::MAX,
        decreases k2 - i,
    {
        match result.checked_mul(n - i) {
            None => {
                proof {
                    assert(!(binom(n as nat, i as nat) * (n - i) <= usize::MAX));
                    let m: nat = k2 as nat;
                    if m * binom(n as nat, m) <= usize::MAX {
                        law_count_fits_when_small(n as nat, k as nat);
                    }
                }
                return None;
            },
            Some(p) => {
                proof {
                    lemma_binom_step(n as nat, i as nat);
                    vstd::arithmetic::div_mod::lemma_div_by_multiple(
                        binom(n as nat, (i + 1) as nat) as int,
                        (i + 1) as int,
                    );
                }
                result = p / (i + 1);
                i += 1;
            },
        }
    }
    proof {
        lemma_binom_symmetric(n as nat, k as nat);
    }
    Some(result)
}

/// `C(n, k)`, the number of ways to choose `k` features out of `n`
/// (`0` when `k > n`).
pub fn combination_count(n: usize, k: usize) -> (r: usize)
    requires
        count_fits(n as nat, k as nat),
    ensures
        r == binom(n as nat, k as nat),
{
    match try_combination_count(n, k) {
        Some(v) => v,
        None => 0,
    }
}

/// The enumeration holds as many combinations as the count says:
/// `generate_combinations(n, k)` has `combination_count(n, k)` elements.
pub proof fn law_enumeration_matches_count(n: nat, k: nat)
    requires
        n <= usize::MAX,
    ensures
        all_combinations(n, k).len() == binom(n, k),
{
    lemma_all_combinations_characterized(n, k);
}

// ---------------------------------------------------------------------------
// Batching
// ---------------------------------------------------------------------------

/// Where a batch that starts at `pos` ends: `batch_size` further on, or at
/// the end of the list.
pub open spec fn batch_end(pos: nat, batch_size: nat, len: nat) -> nat {
    if pos + batch_size < len {
        pos + batch_size
    } else {
        len
    }
}

/// The batches that a generator hands out from position `pos` on, until it
/// is exhausted (none when the batch size is zero).
pub open spec fn batches_from(s: Seq<Seq<usize>>, pos: nat, batch_size: nat) -> Seq<
    Seq<Seq<usize>>,
>
    decreases s.len() - pos,
{
    if batch_size == 0 || pos >= s.len() {
        Seq::empty()
    } else {
        seq![s.subrange(pos as int, batch_end(pos, batch_size, s.len()) as int)] + batches_from(
            s,
            batch_end(pos, batch_size, s.len()),
            batch_size,
        )
    }
}

/// What a call of `next_batch` gave back, as a sequence of combinations.
pub open spec fn batch_view(r: Option<Vec<Vec<usize>>>) -> Option<Seq<Seq<usize>>> {
    match r {
        Some(b) => Some(rows(b@)),
        None => None,
    }
}

/// One call of `next_batch`, taking the generator from `before` to `after`
/// and giving back `r`: the list and the batch size stay; an exhausted
/// generator gives `None` and stays where it is; otherwise it gives the
/// combinations from its position to the end of the batch and moves there.
pub open spec fn batch_step(
    before: BatchGenerator,
    after: BatchGenerator,
    r: Option<Seq<Seq<usize>>>,
) -> bool {
    let s = before.combinations();
    let end = batch_end(before.position(), before.size(), s.len());
    &&& after.combinations() == s
    &&& after.size() == before.size()
    &&& if before.position() >= s.len() {
        r is None && after.position() == before.position()
    } else {
        r == Some(s.subrange(before.position() as int, end as int)) && after.position() == end
    }
}

/// Hands out all combinations of `k` out of `n` features in batches of
/// `batch_size`, in order.
pub struct BatchGenerator {
    combinations: Vec<Vec<usize>>,
    batch_size: usize,
    current: usize,
}

impl BatchGenerator {
    #[verifier::type_invariant]
    spec fn cursor_in_range(self) -> bool {
        self.current <= self.combinations.len()
    }

    /// The combinations that the generator hands out, in order.
    pub closed spec fn combinations(self) -> Seq<Seq<usize>> {
        rows(self.combinations@)
    }

    /// How many combinations have been handed out so far.
    pub closed spec fn position(self) -> nat {
        self.current as nat
    }

    /// The number of combinations per batch.
    pub closed spec fn size(self) -> nat {
        self.batch_size as nat
    }

    /// A generator over all combinations of `k` out of the features `1..=n`,
    /// at its start.
    pub fn new(n: usize, k: usize, batch_size: usize) -> (g: Self)
        ensures
            g.combinations() == all_combinations(n as nat, k as nat),
            g.combinations().len() == binom(n as nat, k as nat),
            g.size() == batch_size,
            g.position() == 0,
    {
        let combinations = generate_combinations(n, k);
        BatchGenerator { combinations, batch_size, current: 0 }
    }

    /// The number of combinations in all.
    pub fn total_count(&self) -> (r: usize)
        ensures
            r == self.combinations().len(),
    {
        self.combinations.len()
    }

    /// The next batch: the combinations from the current position up to
    /// `batch_size` further on (or to the end), or `None` once every
    /// combination has been handed out.
    pub fn next_batch(&mut self) -> (r: Option<Vec<Vec<usize>>>)
        ensures
            final(self).combinations() == old(self).combinations(),
            final(self).size() == old(self).size(),
            final(self).position() <= final(self).combinations().len(),
            old(self).position() >= old(self).combinations().len() ==> r is None
                && final(self).position() == old(self).position(),
            old(self).position() < old(self).combinations().len() ==> r is Some
                && rows(r->0@) == old(self).combinations().subrange(
                old(self).position() as int,
                batch_end(old(self).position(), old(self).size(), old(self).combinations().len())
                    as int,
            ) && final(self).position() == batch_end(
                old(self).position(),
                old(self).size(),
                old(self).combinations().len(),
            ),
            old(self).size() > 0 && old(self).position() < old(self).combinations().len()
                ==> batches_from(old(self).combinations(), old(self).position(), old(self).size())
                == seq![rows(r->0@)] + batches_from(
                final(self).combinations(),
                final(self).position(),
                final(self).size(),
            ),
            batch_step(*old(self), *final(self), batch_view(r)),
    {
        proof {
            use_type_invariant(&*self);
        }
        let len = self.combinations.len();
        if self.current >= len {
            return None;
        }
        let end = if self.batch_size < len - self.current {
            self.current + self.batch_size
        } else {
            len
        };
        let mut batch: Vec<Vec<usize>> = Vec::new();
        let mut i = self.current;
        while i < end
            invariant
                self.current <= i <= end,
                end <= len,
                len == self.combinations@.len(),
                rows(batch@) == rows(self.combinations@).subrange(self.current as int, i as int),
            decreases end - i,
        {
            let ghost before = rows(batch@);
            let c = copy_features(&self.combinations[i]);
            assert(c@ == rows(self.combinations@)[i as int]);
            batch.push(c);
            assert(rows(batch@) =~= before.push(c@));
            i += 1;
            assert(rows(batch@) =~= rows(self.combinations@).subrange(
                self.current as int,
                i as int,
            ));
        }
        self.current = end;
        Some(batch)
    }
}

/// Draining a generator hands out every combination exactly once and in
/// order: the batches, joined, give back the whole list; each batch holds
/// between one and `batch_size` combinations, and every batch but the last
/// holds exactly `batch_size`; and there are `ceil(len / batch_size)` of them.
pub proof fn law_batches_cover_all(s: Seq<Seq<usize>>, batch_size: nat)
    requires
        batch_size > 0,
    ensures
        batches_from(s, 0, batch_size).flatten() == s,
        forall|i: int|
            0 <= i < batches_from(s, 0, batch_size).len() ==> 0 < #[trigger] batches_from(
                s,
                0,
                batch_size,
            )[i].len() <= batch_size,
        forall|i: int|
            0 <= i < batches_from(s, 0, batch_size).len() - 1 ==> #[trigger] batches_from(
                s,
                0,
                batch_size,
            )[i].len() == batch_size,
        batches_from(s, 0, batch_size).len() == (s.len() + batch_size - 1) / batch_size as int,
{
    lemma_batches_from(s, 0, batch_size);
    assert(s.subrange(0, s.len() as int) =~= s);
}

/// Draining a fresh generator: for the states of a generator made by
/// `new(n, k, b)` with `b > 0` and then advanced by `next_batch` calls, with
/// the batches those calls gave back, the calls give the batches
/// `batches_from(all_combinations(n, k), 0, b)` one after another and then
/// `None` on every later call. Those batches, joined, are the whole
/// enumeration; there are `ceil(C(n, k) / b)` of them; every one but the last
/// holds `b` combinations, and the last between one and `b`.
pub proof fn law_draining_gives_every_batch(
    run: Seq<BatchGenerator>,
    out: Seq<Option<Seq<Seq<usize>>>>,
    n: nat,
    k: nat,
)
    requires
        n <= usize::MAX,
        run.len() == out.len() + 1,
        run[0].combinations() == all_combinations(n, k),
        run[0].position() == 0,
        run[0].size() > 0,
        forall|i: int| 0 <= i < out.len() ==> #[trigger] batch_step(run[i], run[i + 1], out[i]),
    ensures
        ({
            let b = run[0].size();
            let bs = batches_from(all_combinations(n, k), 0, b);
            &&& forall|i: int| 0 <= i < out.len() && i < bs.len() ==> #[trigger] out[i] == Some(bs[i])
            &&& forall|i: int| 0 <= i < out.len() && i >= bs.len() ==> #[trigger] out[i] is None
            &&& bs.flatten() == all_combinations(n, k)
            &&& bs.len() == (binom(n, k) + b - 1) / b as int
            &&& forall|i: int| 0 <= i < bs.len() - 1 ==> #[trigger] bs[i].len() == b
            &&& forall|i: int| 0 <= i < bs.len() ==> 0 < #[trigger] bs[i].len() <= b
        }),
{
    let s = all_combinations(n, k);
    let b = run[0].size();
    lemma_all_combinations_characterized(n, k);
    law_batches_cover_all(s, b);
    lemma_drain_prefix(run, out, s, b, out.len() as int);
}

proof fn lemma_drain_prefix(
    run: Seq<BatchGenerator>,
    out: Seq<Option<Seq<Seq<usize>>>>,
    s: Seq<Seq<usize>>,
    b: nat,
    i: int,
)
    requires
        b > 0,
        0 <= i <= out.len(),
        run.len() == out.len() + 1,
        run[0].combinations() == s,
        run[0].position() == 0,
        run[0].size() == b,
        forall|j: int| 0 <= j < out.len() ==> #[trigger] batch_step(run[j], run[j + 1], out[j]),
    ensures
        run[i].combinations() == s,
        run[i].size() == b,
        batches_from(s, run[i].position(), b) == batches_from(s, 0, b).skip(
            if i < batches_from(s, 0, b).len() {
                i
            } else {
                batches_from(s, 0, b).len() as int
            },
        ),
        forall|j: int|
            0 <= j < i && j < batches_from(s, 0, b).len() ==> #[trigger] out[j] == Some(
                batches_from(s, 0, b)[j],
            ),
        forall|j: int| 0 <= j < i && j >= batches_from(s, 0, b).len() ==> #[trigger] out[j] is None,
    decreases i,
{
    let bs = batches_from(s, 0, b);
    if i == 0 {
        assert(bs.skip(0) =~= bs);
    } else {
        lemma_drain_prefix(run, out, s, b, i - 1);
        assert(batch_step(run[i - 1], run[(i - 1) + 1], out[i - 1]));
        let p = run[i - 1].position();
        let prev = if i - 1 < bs.len() {
            i - 1
        } else {
            bs.len() as int
        };
        if p >= s.len() {
            assert(batches_from(s, p, b).len() == 0);
            assert(bs.skip(prev).len() == 0);
            assert(prev == bs.len());
        } else {
            let end = batch_end(p, b, s.len());
            let here = batches_from(s, p, b);
            assert(here == seq![s.subrange(p as int, end as int)] + batches_from(s, end, b));
            assert(bs.skip(prev).len() > 0);
            assert(prev == i - 1);
            assert(bs.skip(prev)[0] == bs[i - 1]);
            assert(bs.skip(i) =~= bs.skip(prev).drop_first());
            assert(here.drop_first() =~= batches_from(s, end, b));
        }
    }
}

/// The total stays the count of combinations whatever batches were taken:
/// for the states of a generator made by `new(n, k, _)` and then advanced by
/// any number of `next_batch` calls (each of which keeps `combinations()`),
/// `total_count()` is `C(n, k)` in every one of them.
pub proof fn law_total_count_stable(run: Seq<BatchGenerator>, n: nat, k: nat)
    requires
        n <= usize::MAX,
        run.len() > 0,
        run[0].combinations() == all_combinations(n, k),
        forall|i: int|
            0 <= i < run.len() - 1 ==> #[trigger] run[i + 1].combinations() == run[i].combinations(),
    ensures
        forall|i: int| 0 <= i < run.len() ==> #[trigger] run[i].combinations().len() == binom(n, k),
{
    lemma_all_combinations_characterized(n, k);
    assert forall|i: int| 0 <= i < run.len() implies #[trigger] run[i].combinations()
        == all_combinations(n, k) by {
        lemma_run_keeps_combinations(run, i);
    }
}

proof fn lemma_run_keeps_combinations(run: Seq<BatchGenerator>, i: int)
    requires
        0 <= i < run.len(),
        forall|j: int|
            0 <= j < run.len() - 1 ==> #[trigger] run[j + 1].combinations() == run[j].combinations(),
    ensures
        run[i].combinations() == run[0].combinations(),
    decreases i,
{
    if i > 0 {
        lemma_run_keeps_combinations(run, i - 1);
        assert(run[(i - 1) + 1].combinations() == run[i - 1].combinations());
    }
}

proof fn lemma_batches_from(s: Seq<Seq<usize>>, pos: nat, batch_size: nat)
    requires
        batch_size > 0,
        pos <= s.len(),
    ensures
        batches_from(s, pos, batch_size).flatten() == s.subrange(pos as int, s.len() as int),
        forall|i: int|
            0 <= i < batches_from(s, pos, batch_size).len() ==> 0 < #[trigger] batches_from(
                s,
                pos,
                batch_size,
            )[i].len() <= batch_size,
        forall|i: int|
            0 <= i < batches_from(s, pos, batch_size).len() - 1 ==> #[trigger] batches_from(
                s,
                pos,
                batch_size,
            )[i].len() == batch_size,
        batches_from(s, pos, batch_size).len() == (s.len() - pos + batch_size - 1)
            / batch_size as int,
    decreases s.len() - pos,
{
    let bs = batches_from(s, pos, batch_size);
    if pos >= s.len() {
        assert(s.subrange(pos as int, s.len() as int) =~= Seq::<Seq<usize>>::empty());
        let m = batch_size as int;
        assert((m - 1) / m == 0) by (nonlinear_arith)
            requires
                m > 0,
        ;
    } else {
        let end = batch_end(pos, batch_size, s.len());
        lemma_batches_from(s, end, batch_size);
        let rest = batches_from(s, end, batch_size);
        let first = s.subrange(pos as int, end as int);
        assert(bs == seq![first] + rest);
        assert(bs.drop_first() =~= rest);
        assert(bs.flatten() == first + rest.flatten());
        assert(first + s.subrange(end as int, s.len() as int) =~= s.subrange(
            pos as int,
            s.len() as int,
        ));
        assert forall|i: int| 0 <= i < bs.len() implies 0 < #[trigger] bs[i].len()
            <= batch_size by {
            if i > 0 {
                assert(bs[i] == rest[i - 1]);
            }
        }
        assert forall|i: int| 0 <= i < bs.len() - 1 implies #[trigger] bs[i].len()
            == batch_size by {
            if i > 0 {
                assert(bs[i] == rest[i - 1]);
            } else {
                assert(rest.len() > 0);
                assert(end < s.len());
            }
        }
        let m = batch_size as int;
        let l = s.len() - pos;
        if pos + batch_size < s.len() {
            assert((l - m + m - 1) / m + 1 == (l + m - 1) / m) by (nonlinear_arith)
                requires
                    m > 0,
                    l > m,
            ;
        } else {
            assert((l + m - 1) / m == 1) by (nonlinear_arith)
                requires
                    m > 0,
                    0 < l <= m,
            ;
            assert((0 + m - 1) / m == 0) by (nonlinear_arith)
                requires
                    m > 0,
            ;
        }
    }
}

} // verus!
