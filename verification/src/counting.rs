//! Counting over user histories: how often an item occurs, how many ordered
//! pairs of distinct positions pair two items, and the sums of these over all
//! users. The co-occurrence matrix, its row sums and its total are these sums.
use vstd::prelude::*;

verus! {

/// 1 when `b` holds, else 0.
pub open spec fn ind(b: bool) -> int {
    if b {
        1
    } else {
        0
    }
}

/// `n` when `b` holds, else 0.
pub open spec fn only_if(b: bool, n: int) -> int {
    if b {
        n
    } else {
        0
    }
}

pub proof fn lemma_ind_mul(b: bool, n: int)
    ensures
        ind(b) * n == only_if(b, n),
{
    if b {
        assert(1 * n == n);
    } else {
        assert(0 * n == 0);
    }
}

/// The number of positions of `h` that hold `v`.
pub open spec fn count(h: Seq<u32>, v: u32) -> nat
    decreases h.len(),
{
    if h.len() == 0 {
        0
    } else {
        count(h.drop_last(), v) + (if h.last() == v {
            1nat
        } else {
            0nat
        })
    }
}

/// The number of ordered pairs `(p, q)` of distinct positions of `h` with
/// `h[p] == a` and `h[q] == b`.
pub open spec fn pairs(h: Seq<u32>, a: u32, b: u32) -> int {
    count(h, a) * count(h, b) - (if a == b {
        count(h, a) as int
    } else {
        0
    })
}

/// The number of ordered pairs of distinct positions of `h` whose first
/// position holds `a`.
pub open spec fn row_pairs(h: Seq<u32>, a: u32) -> int {
    count(h, a) * (h.len() - 1)
}

/// The number of ordered pairs of distinct positions of `h`.
pub open spec fn all_pairs(h: Seq<u32>) -> int {
    h.len() * (h.len() - 1)
}

/// What is counted in one history.
pub enum Tally {
    Occurrences(u32),
    Pairs(u32, u32),
    RowPairs(u32),
    AllPairs,
}

pub open spec fn tally(h: Seq<u32>, t: Tally) -> int {
    match t {
        Tally::Occurrences(v) => count(h, v) as int,
        Tally::Pairs(a, b) => pairs(h, a, b),
        Tally::RowPairs(a) => row_pairs(h, a),
        Tally::AllPairs => all_pairs(h),
    }
}

/// The sum of a tally over all histories.
pub open spec fn sum_tally(hs: Seq<Seq<u32>>, t: Tally) -> int
    decreases hs.len(),
{
    if hs.len() == 0 {
        0
    } else {
        sum_tally(hs.drop_last(), t) + tally(hs.last(), t)
    }
}

pub proof fn lemma_count_push(h: Seq<u32>, x: u32, v: u32)
    ensures
        count(h.push(x), v) == count(h, v) + ind(x == v),
{
    assert(h.push(x).drop_last() =~= h);
}

pub proof fn lemma_count_take_step(h: Seq<u32>, t: int, v: u32)
    requires
        0 <= t < h.len(),
    ensures
        count(h.take(t + 1), v) == count(h.take(t), v) + ind(h[t] == v),
{
    assert(h.take(t + 1) =~= h.take(t).push(h[t]));
    lemma_count_push(h.take(t), h[t], v);
}

pub proof fn lemma_count_take_le(h: Seq<u32>, t: int, v: u32)
    requires
        0 <= t <= h.len(),
    ensures
        count(h.take(t), v) <= count(h, v),
    decreases h.len() - t,
{
    if t < h.len() {
        lemma_count_take_step(h, t, v);
        lemma_count_take_le(h, t + 1, v);
    } else {
        assert(h.take(t) =~= h);
    }
}

/// The count of `v` among the positions of `h` other than `k`.
pub open spec fn rest_count(h: Seq<u32>, k: int, v: u32) -> int {
    count(h, v) - ind(h[k] == v)
}

/// The count of `v` among the first `t` positions of `h` other than `k`.
pub open spec fn count_except(h: Seq<u32>, k: int, t: int, v: u32) -> int {
    count(h.take(t), v) - ind(k < t && h[k] == v)
}

pub proof fn lemma_count_except_step(h: Seq<u32>, k: int, t: int, v: u32)
    requires
        0 <= t < h.len(),
        0 <= k < h.len(),
    ensures
        count_except(h, k, t + 1, v) == count_except(h, k, t, v) + ind(t != k && h[t] == v),
{
    lemma_count_take_step(h, t, v);
}

pub proof fn lemma_count_except_bounds(h: Seq<u32>, k: int, t: int, v: u32)
    requires
        0 <= t <= h.len(),
        0 <= k < h.len(),
    ensures
        0 <= count_except(h, k, t, v) <= rest_count(h, k, v),
        t == h.len() ==> count_except(h, k, t, v) == rest_count(h, k, v),
    decreases h.len() - t,
{
    if t < h.len() {
        lemma_count_except_step(h, k, t, v);
        lemma_count_except_bounds(h, k, t + 1, v);
        if k < t && h[k] == v {
            assert(h.take(t)[k] == v);
            lemma_count_at(h.take(t), k);
        }
    } else {
        assert(h.take(t) =~= h);
        lemma_count_at(h, k);
    }
}

pub proof fn lemma_count_update(h: Seq<u32>, k: int, x: u32, v: u32)
    requires
        0 <= k < h.len(),
    ensures
        count(h.update(k, x), v) == count(h, v) - ind(h[k] == v) + ind(x == v),
    decreases h.len(),
{
    let g = h.update(k, x);
    if k == h.len() - 1 {
        assert(g.drop_last() =~= h.drop_last());
    } else {
        assert(g.drop_last() =~= h.drop_last().update(k, x));
        lemma_count_update(h.drop_last(), k, x, v);
    }
}

pub proof fn lemma_count_remove(h: Seq<u32>, k: int, v: u32)
    requires
        0 <= k < h.len(),
    ensures
        count(h.remove(k), v) == count(h, v) - ind(h[k] == v),
    decreases h.len(),
{
    let g = h.remove(k);
    if k == h.len() - 1 {
        assert(g =~= h.drop_last());
    } else {
        assert(g.drop_last() =~= h.drop_last().remove(k));
        assert(g.last() == h.last());
        lemma_count_remove(h.drop_last(), k, v);
    }
}

pub proof fn lemma_count_bounds(h: Seq<u32>, a: u32, b: u32)
    ensures
        count(h, a) <= h.len(),
        a != b ==> count(h, a) + count(h, b) <= h.len(),
    decreases h.len(),
{
    if h.len() > 0 {
        lemma_count_bounds(h.drop_last(), a, b);
    }
}

pub proof fn lemma_count_at(h: Seq<u32>, k: int)
    requires
        0 <= k < h.len(),
    ensures
        count(h, h[k]) >= 1,
    decreases h.len(),
{
    if k < h.len() - 1 {
        lemma_count_at(h.drop_last(), k);
    }
}

pub proof fn lemma_count_contains(h: Seq<u32>, v: u32)
    ensures
        count(h, v) > 0 <==> h.contains(v),
    decreases h.len(),
{
    if h.len() > 0 {
        lemma_count_contains(h.drop_last(), v);
        if h.last() == v {
            assert(h[h.len() - 1] == v);
        }
        if h.drop_last().contains(v) {
            let i = choose|i: int| 0 <= i < h.drop_last().len() && h.drop_last()[i] == v;
            assert(h[i] == v);
        }
        if h.contains(v) && h.last() != v {
            let i = choose|i: int| 0 <= i < h.len() && h[i] == v;
            assert(h.drop_last()[i] == v);
        }
    }
}

pub proof fn lemma_tally_nonneg(h: Seq<u32>, t: Tally)
    ensures
        tally(h, t) >= 0,
{
    match t {
        Tally::Occurrences(v) => {},
        Tally::Pairs(a, b) => {
            let ca = count(h, a) as int;
            let cb = count(h, b) as int;
            if a == b {
                assert(ca * ca - ca >= 0) by (nonlinear_arith);
            } else {
                assert(ca * cb >= 0) by (nonlinear_arith)
                    requires
                        ca >= 0,
                        cb >= 0,
                ;
            }
        },
        Tally::RowPairs(a) => {
            lemma_count_bounds(h, a, a);
            let ca = count(h, a) as int;
            let l = h.len() as int;
            assert(ca * (l - 1) >= 0) by (nonlinear_arith)
                requires
                    0 <= ca <= l,
            ;
        },
        Tally::AllPairs => {
            let l = h.len() as int;
            assert(l * (l - 1) >= 0) by (nonlinear_arith)
                requires
                    l >= 0,
            ;
        },
    }
}

pub proof fn lemma_sum_update(hs: Seq<Seq<u32>>, u: int, h2: Seq<u32>, t: Tally)
    requires
        0 <= u < hs.len(),
    ensures
        sum_tally(hs.update(u, h2), t) == sum_tally(hs, t) - tally(hs[u], t) + tally(h2, t),
    decreases hs.len(),
{
    let g = hs.update(u, h2);
    if u == hs.len() - 1 {
        assert(g.drop_last() =~= hs.drop_last());
    } else {
        assert(g.drop_last() =~= hs.drop_last().update(u, h2));
        lemma_sum_update(hs.drop_last(), u, h2, t);
    }
}

pub proof fn lemma_sum_nonneg(hs: Seq<Seq<u32>>, t: Tally)
    ensures
        sum_tally(hs, t) >= 0,
    decreases hs.len(),
{
    if hs.len() > 0 {
        lemma_sum_nonneg(hs.drop_last(), t);
        lemma_tally_nonneg(hs.last(), t);
    }
}

pub proof fn lemma_sum_ge_term(hs: Seq<Seq<u32>>, u: int, t: Tally)
    requires
        0 <= u < hs.len(),
    ensures
        sum_tally(hs, t) >= tally(hs[u], t),
    decreases hs.len(),
{
    if u == hs.len() - 1 {
        lemma_sum_nonneg(hs.drop_last(), t);
    } else {
        lemma_sum_ge_term(hs.drop_last(), u, t);
        lemma_tally_nonneg(hs.last(), t);
    }
}

/// What appending `x` to a history adds to each tally.
pub proof fn lemma_tallies_push(h: Seq<u32>, x: u32, a: u32, b: u32)
    ensures
        pairs(h.push(x), a, b) == pairs(h, a, b) + only_if(a == x, count(h, b) as int) + only_if(
            b == x,
            count(h, a) as int,
        ),
        row_pairs(h.push(x), a) == row_pairs(h, a) + count(h, a) + only_if(a == x, h.len() as int),
        all_pairs(h.push(x)) == all_pairs(h) + 2 * h.len(),
{
    lemma_count_push(h, x, a);
    lemma_count_push(h, x, b);
    let ca = count(h, a) as int;
    let cb = count(h, b) as int;
    let xa = ind(a == x);
    let xb = ind(b == x);
    let l = h.len() as int;
    assert((ca + xa) * (cb + xb) == ca * cb + xa * cb + xb * ca + xa * xb) by (nonlinear_arith);
    assert((ca + xa) * (l + 1 - 1) == ca * (l - 1) + ca + xa * l) by (nonlinear_arith);
    assert((l + 1) * (l + 1 - 1) == l * (l - 1) + 2 * l) by (nonlinear_arith);
    if a == b {
        assert(xa * xb == xa);
    } else {
        assert(xa * xb == 0);
    }
    lemma_ind_mul(a == x, cb);
    lemma_ind_mul(b == x, ca);
    lemma_ind_mul(a == x, l);
}

/// What overwriting position `k` of a history with `x` does to each tally,
/// in terms of the counts of the other positions.
pub proof fn lemma_tallies_update(h: Seq<u32>, k: int, x: u32, a: u32, b: u32)
    requires
        0 <= k < h.len(),
    ensures
        ({
            let p = h[k];
            let ra = count(h, a) - ind(p == a);
            let rb = count(h, b) - ind(p == b);
            &&& pairs(h.update(k, x), a, b) == pairs(h, a, b) + only_if(a == x, rb) + only_if(b == x, ra)
                - only_if(a == p, rb) - only_if(b == p, ra)
            &&& row_pairs(h.update(k, x), a) == row_pairs(h, a) + only_if(a == x, h.len() - 1) - only_if(
                a == p,
                h.len() - 1,
            )
            &&& all_pairs(h.update(k, x)) == all_pairs(h)
            &&& ra >= 0
            &&& rb >= 0
            &&& only_if(a == p, rb) + only_if(b == p, ra) <= pairs(h, a, b)
        }),
{
    let p = h[k];
    lemma_count_update(h, k, x, a);
    lemma_count_update(h, k, x, b);
    lemma_count_at(h, k);
    let ca = count(h, a) as int;
    let cb = count(h, b) as int;
    let pa = ind(p == a);
    let pb = ind(p == b);
    let xa = ind(x == a);
    let xb = ind(x == b);
    let ra = ca - pa;
    let rb = cb - pb;
    let l = h.len() as int;
    assert(ra >= 0 && rb >= 0) by {
        if p == a {
            assert(count(h, h[k]) >= 1);
        }
        if p == b {
            assert(count(h, h[k]) >= 1);
        }
    }
    assert((ra + xa) * (rb + xb) == ra * rb + xa * rb + xb * ra + xa * xb) by (nonlinear_arith);
    assert((ra + pa) * (rb + pb) == ra * rb + pa * rb + pb * ra + pa * pb) by (nonlinear_arith);
    assert((ra + xa) * (l - 1) == (ra + pa) * (l - 1) + (xa - pa) * (l - 1)) by (nonlinear_arith);
    if a == b {
        assert(xa * xb == xa);
        assert(pa * pb == pa);
        // p == a: pairs(h, a, a) = ca * ca - ca >= 2 * (ca - 1)
        if p == a {
            assert(ca * ca - ca >= 2 * (ca - 1)) by (nonlinear_arith)
                requires
                    ca >= 1,
            ;
        }
    } else {
        assert(xa * xb == 0);
        assert(pa * pb == 0);
        if p == a {
            assert(ca * cb >= cb) by (nonlinear_arith)
                requires
                    ca >= 1,
                    cb >= 0,
            ;
        } else if p == b {
            assert(ca * cb >= ca) by (nonlinear_arith)
                requires
                    cb >= 1,
                    ca >= 0,
            ;
        }
    }
    lemma_tally_nonneg(h, Tally::Pairs(a, b));
    let g = h.update(k, x);
    assert(count(g, a) == ra + xa);
    assert(count(g, b) == rb + xb);
    assert(pairs(g, a, b) == pairs(h, a, b) + ind(a == x) * rb + ind(b == x) * ra - ind(a == p) * rb
        - ind(b == p) * ra);
    assert(row_pairs(g, a) == row_pairs(h, a) + (ind(a == x) - ind(a == p)) * (h.len() - 1));
    assert(ind(a == p) * rb + ind(b == p) * ra <= pairs(h, a, b));
    assert((ind(a == x) - ind(a == p)) * (l - 1) == ind(a == x) * (l - 1) - ind(a == p) * (l - 1))
        by (nonlinear_arith);
    lemma_ind_mul(a == x, rb);
    lemma_ind_mul(b == x, ra);
    lemma_ind_mul(a == p, rb);
    lemma_ind_mul(b == p, ra);
    lemma_ind_mul(a == x, l - 1);
    lemma_ind_mul(a == p, l - 1);
}

/// In one history, the pairs starting at `a` and ending at `b` are among
/// those starting at `a`, and the four cells of the contingency table of
/// `a` and `b` are not negative.
pub proof fn lemma_tally_table(h: Seq<u32>, a: u32, b: u32)
    ensures
        pairs(h, a, b) == pairs(h, b, a),
        pairs(h, a, b) <= row_pairs(h, a),
        all_pairs(h) + pairs(h, a, b) - row_pairs(h, a) - row_pairs(h, b) >= 0,
{
    lemma_count_bounds(h, a, b);
    lemma_count_bounds(h, b, a);
    let ca = count(h, a) as int;
    let cb = count(h, b) as int;
    let l = h.len() as int;
    assert(ca * cb == cb * ca) by (nonlinear_arith);
    if a == b {
        assert(ca * ca - ca <= ca * (l - 1)) by (nonlinear_arith)
            requires
                0 <= ca <= l,
        ;
        let d = l - ca;
        assert(l * (l - 1) + (ca * ca - ca) - 2 * (ca * (l - 1)) == d * (d - 1)) by (nonlinear_arith)
            requires
                d == l - ca,
        ;
        assert(d * (d - 1) >= 0) by (nonlinear_arith)
            requires
                d >= 0,
        ;
    } else {
        assert(ca * cb <= ca * (l - 1)) by (nonlinear_arith)
            requires
                0 <= ca,
                0 <= cb,
                ca + cb <= l,
                ca == 0 || cb <= l - 1,
        ;
        assert(l * (l - 1) + ca * cb - ca * (l - 1) - cb * (l - 1) == (l - 1) * (l - ca - cb) + ca
            * cb) by (nonlinear_arith);
        assert((l - 1) * (l - ca - cb) + ca * cb >= 0) by (nonlinear_arith)
            requires
                0 <= ca,
                0 <= cb,
                ca + cb <= l,
        ;
    }
}

/// Summed over all histories: the co-occurrence matrix is symmetric, an
/// entry is at most its row sum, and the last cell of the contingency table
/// is not negative.
pub proof fn lemma_sum_table(hs: Seq<Seq<u32>>, a: u32, b: u32)
    ensures
        sum_tally(hs, Tally::Pairs(a, b)) == sum_tally(hs, Tally::Pairs(b, a)),
        sum_tally(hs, Tally::Pairs(a, b)) <= sum_tally(hs, Tally::RowPairs(a)),
        sum_tally(hs, Tally::AllPairs) + sum_tally(hs, Tally::Pairs(a, b)) - sum_tally(
            hs,
            Tally::RowPairs(a),
        ) - sum_tally(hs, Tally::RowPairs(b)) >= 0,
    decreases hs.len(),
{
    if hs.len() > 0 {
        lemma_sum_table(hs.drop_last(), a, b);
        lemma_tally_table(hs.last(), a, b);
    }
}

/// `sum over b < n of count(h, b)`.
pub open spec fn count_across(h: Seq<u32>, n: nat) -> int
    decreases n,
{
    if n == 0 {
        0
    } else {
        count_across(h, (n - 1) as nat) + count(h, (n - 1) as u32)
    }
}

/// `sum over b < n of pairs(h, a, b)`.
pub open spec fn pairs_across(h: Seq<u32>, a: u32, n: nat) -> int
    decreases n,
{
    if n == 0 {
        0
    } else {
        pairs_across(h, a, (n - 1) as nat) + pairs(h, a, (n - 1) as u32)
    }
}

/// `sum over a < n of row_pairs(h, a)`.
pub open spec fn row_pairs_across(h: Seq<u32>, n: nat) -> int
    decreases n,
{
    if n == 0 {
        0
    } else {
        row_pairs_across(h, (n - 1) as nat) + row_pairs(h, (n - 1) as u32)
    }
}

/// `sum over b < n` of the summed pairs of `a` and `b`: the row of `a` in the
/// co-occurrence matrix, added up.
pub open spec fn pairs_sum_across(hs: Seq<Seq<u32>>, a: u32, n: nat) -> int
    decreases n,
{
    if n == 0 {
        0
    } else {
        pairs_sum_across(hs, a, (n - 1) as nat) + sum_tally(hs, Tally::Pairs(a, (n - 1) as u32))
    }
}

/// `sum over a < n` of the summed row pairs of `a`: the row sums, added up.
pub open spec fn row_sum_across(hs: Seq<Seq<u32>>, n: nat) -> int
    decreases n,
{
    if n == 0 {
        0
    } else {
        row_sum_across(hs, (n - 1) as nat) + sum_tally(hs, Tally::RowPairs((n - 1) as u32))
    }
}

/// Every item of every history is below `n`.
pub open spec fn items_below(hs: Seq<Seq<u32>>, n: nat) -> bool {
    forall|u: int, p: int| 0 <= u < hs.len() && 0 <= p < hs[u].len() ==> #[trigger] hs[u][p] < n
}

proof fn lemma_count_across_push(h: Seq<u32>, x: u32, n: nat)
    requires
        n <= u32::MAX + 1,
    ensures
        count_across(h.push(x), n) == count_across(h, n) + ind(x < n),
    decreases n,
{
    if n > 0 {
        lemma_count_across_push(h, x, (n - 1) as nat);
        lemma_count_push(h, x, (n - 1) as u32);
    }
}

proof fn lemma_count_across_len(h: Seq<u32>, n: nat)
    requires
        n <= u32::MAX + 1,
        forall|p: int| 0 <= p < h.len() ==> #[trigger] h[p] < n,
    ensures
        count_across(h, n) == h.len(),
    decreases h.len(),
{
    if h.len() == 0 {
        assert forall|m: nat| m <= n implies #[trigger] count_across(h, m) == 0 by {
            lemma_count_across_empty(h, m);
        }
    } else {
        let g = h.drop_last();
        assert(h =~= g.push(h.last()));
        lemma_count_across_len(g, n);
        lemma_count_across_push(g, h.last(), n);
    }
}

proof fn lemma_count_across_empty(h: Seq<u32>, m: nat)
    requires
        h.len() == 0,
    ensures
        count_across(h, m) == 0,
    decreases m,
{
    if m > 0 {
        lemma_count_across_empty(h, (m - 1) as nat);
    }
}

proof fn lemma_pairs_across(h: Seq<u32>, a: u32, n: nat)
    requires
        n <= u32::MAX + 1,
    ensures
        pairs_across(h, a, n) == count(h, a) * count_across(h, n) - only_if(a < n, count(h, a) as int),
    decreases n,
{
    if n > 0 {
        lemma_pairs_across(h, a, (n - 1) as nat);
        let ca = count(h, a) as int;
        let s = count_across(h, (n - 1) as nat);
        let cb = count(h, (n - 1) as u32) as int;
        assert(ca * (s + cb) == ca * s + ca * cb) by (nonlinear_arith);
    }
}

proof fn lemma_row_pairs_across(h: Seq<u32>, n: nat)
    requires
        n <= u32::MAX + 1,
    ensures
        row_pairs_across(h, n) == count_across(h, n) * (h.len() - 1),
    decreases n,
{
    if n > 0 {
        lemma_row_pairs_across(h, (n - 1) as nat);
        let s = count_across(h, (n - 1) as nat);
        let c = count(h, (n - 1) as u32) as int;
        let l = h.len() - 1;
        assert((s + c) * l == s * l + c * l) by (nonlinear_arith);
    }
}

proof fn lemma_pairs_sum_across_split(hs: Seq<Seq<u32>>, a: u32, n: nat)
    requires
        hs.len() > 0,
    ensures
        pairs_sum_across(hs, a, n) == pairs_sum_across(hs.drop_last(), a, n) + pairs_across(
            hs.last(),
            a,
            n,
        ),
    decreases n,
{
    if n > 0 {
        lemma_pairs_sum_across_split(hs, a, (n - 1) as nat);
    }
}

proof fn lemma_row_sum_across_split(hs: Seq<Seq<u32>>, n: nat)
    requires
        hs.len() > 0,
    ensures
        row_sum_across(hs, n) == row_sum_across(hs.drop_last(), n) + row_pairs_across(hs.last(), n),
    decreases n,
{
    if n > 0 {
        lemma_row_sum_across_split(hs, (n - 1) as nat);
    }
}

proof fn lemma_across_empty(hs: Seq<Seq<u32>>, a: u32, n: nat)
    requires
        hs.len() == 0,
    ensures
        pairs_sum_across(hs, a, n) == 0,
        row_sum_across(hs, n) == 0,
    decreases n,
{
    if n > 0 {
        lemma_across_empty(hs, a, (n - 1) as nat);
    }
}

/// When every item is below `n`, the row sum of `a` is the sum of the
/// co-occurrence counts of `a` with the items below `n`.
pub proof fn lemma_row_sum_is_sum_of_row(hs: Seq<Seq<u32>>, a: u32, n: nat)
    requires
        n <= u32::MAX + 1,
        items_below(hs, n),
    ensures
        pairs_sum_across(hs, a, n) == sum_tally(hs, Tally::RowPairs(a)),
    decreases hs.len(),
{
    if hs.len() == 0 {
        lemma_across_empty(hs, a, n);
    } else {
        let g = hs.drop_last();
        let h = hs.last();
        assert forall|u: int, p: int| 0 <= u < g.len() && 0 <= p < g[u].len() implies #[trigger] g[u][p]
            < n by {
            assert(g[u] == hs[u]);
        }
        lemma_row_sum_is_sum_of_row(g, a, n);
        lemma_pairs_sum_across_split(hs, a, n);
        assert forall|p: int| 0 <= p < h.len() implies #[trigger] h[p] < n by {
            assert(hs[hs.len() - 1][p] < n);
        }
        lemma_count_across_len(h, n);
        lemma_pairs_across(h, a, n);
        let ca = count(h, a) as int;
        let l = h.len() as int;
        if a >= n {
            lemma_count_contains(h, a);
            if count(h, a) > 0 {
                let p = choose|p: int| 0 <= p < h.len() && h[p] == a;
            }
            assert(ca == 0);
            assert(ca * l == 0) by (nonlinear_arith)
                requires
                    ca == 0,
            ;
            assert(ca * (l - 1) == 0) by (nonlinear_arith)
                requires
                    ca == 0,
            ;
        } else {
            assert(ca * l - ca == ca * (l - 1)) by (nonlinear_arith);
        }
    }
}

/// When every item is below `n`, the total of the co-occurrence matrix is
/// the sum of the row sums of the items below `n`.
pub proof fn lemma_total_is_sum_of_row_sums(hs: Seq<Seq<u32>>, n: nat)
    requires
        n <= u32::MAX + 1,
        items_below(hs, n),
    ensures
        row_sum_across(hs, n) == sum_tally(hs, Tally::AllPairs),
    decreases hs.len(),
{
    if hs.len() == 0 {
        lemma_across_empty(hs, 0, n);
    } else {
        let g = hs.drop_last();
        let h = hs.last();
        assert forall|u: int, p: int| 0 <= u < g.len() && 0 <= p < g[u].len() implies #[trigger] g[u][p]
            < n by {
            assert(g[u] == hs[u]);
        }
        lemma_total_is_sum_of_row_sums(g, n);
        lemma_row_sum_across_split(hs, n);
        assert forall|p: int| 0 <= p < h.len() implies #[trigger] h[p] < n by {
            assert(hs[hs.len() - 1][p] < n);
        }
        lemma_count_across_len(h, n);
        lemma_row_pairs_across(h, n);
    }
}

} // verus!
