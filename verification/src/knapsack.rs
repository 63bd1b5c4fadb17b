//! Exact solver for the 0/1 knapsack decision problem.
//!
//! Items are processed in descending value/weight ratio order (ratios are
//! compared exactly, by cross-multiplication, with ties broken by index).
//! A fractional-relaxation upper bound prunes hopeless instances; otherwise a
//! capacity-indexed dynamic program runs over the items, recording for every
//! (item, capacity) pair whether including the item improved that state, and
//! stops as soon as the threshold is reached. The chosen items are then
//! recovered by walking the recorded inclusion table backwards.

use vstd::prelude::*;

verus! {

/// A knapsack instance: parallel weight and value lists, a capacity and an
/// acceptance threshold.
pub struct Challenge {
    pub weights: Vec<u32>,
    pub values: Vec<u32>,
    pub max_weight: u32,
    pub min_value: u32,
}

/// A candidate answer: the indices of the selected items.
pub struct Solution {
    pub items: Vec<usize>,
}

/// The instance invariant (parallel lists), plus the machine limits that keep
/// every sum of weights or values inside a `u64` and the capacity-indexed
/// table addressable.
pub open spec fn well_formed(c: Challenge) -> bool {
    &&& c.weights@.len() == c.values@.len()
    &&& c.weights@.len() <= 0x1_0000_0000
    &&& c.max_weight + 1 <= usize::MAX
}

/// Sum of `xs` over the index list `sel`.
pub open spec fn sel_sum(xs: Seq<u32>, sel: Seq<usize>) -> int
    decreases sel.len(),
{
    if sel.len() == 0 {
        0
    } else {
        sel_sum(xs, sel.drop_last()) + xs[sel.last() as int]
    }
}

/// `sel` is a set of item indices: no duplicates, all in range.
pub open spec fn sel_ok(c: Challenge, sel: Seq<usize>) -> bool {
    &&& forall|k: int| 0 <= k < sel.len() ==> (sel[k] as int) < c.weights@.len()
    &&& forall|k: int, l: int| 0 <= k < l < sel.len() ==> sel[k] != sel[l]
}

/// A valid solution: a set of items within capacity whose value meets the
/// threshold.
pub open spec fn valid_selection(c: Challenge, sel: Seq<usize>) -> bool {
    &&& sel_ok(c, sel)
    &&& sel_sum(c.weights@, sel) <= c.max_weight
    &&& sel_sum(c.values@, sel) >= c.min_value
}

/// The instance admits some valid solution.
pub open spec fn solvable(c: Challenge) -> bool {
    exists|sel: Seq<usize>| valid_selection(c, sel)
}

/// Item `i` is processed before item `j`: strictly higher value/weight ratio
/// (compared exactly by cross-multiplication), ties broken by index.
pub open spec fn prec(c: Challenge, i: usize, j: usize) -> bool {
    let vi = c.values@[i as int] as int;
    let wi = c.weights@[i as int] as int;
    let vj = c.values@[j as int] as int;
    let wj = c.weights@[j as int] as int;
    vi * wj > vj * wi || (vi * wj == vj * wi && i < j)
}

/// Insert index `x` into `s` before the first entry that `x` precedes.
pub open spec fn insort(c: Challenge, x: usize, s: Seq<usize>) -> Seq<usize>
    decreases s.len(),
{
    if s.len() == 0 {
        seq![x]
    } else if prec(c, x, s.first()) {
        seq![x] + s
    } else {
        seq![s.first()] + insort(c, x, s.drop_first())
    }
}

/// The processing order of the first `n` items, built by insertion.
pub open spec fn order_of_n(c: Challenge, n: nat) -> Seq<usize>
    decreases n,
{
    if n == 0 {
        Seq::empty()
    } else {
        insort(c, (n - 1) as usize, order_of_n(c, (n - 1) as nat))
    }
}

/// The ratio-descending processing order of all items.
pub open spec fn ratio_order(c: Challenge) -> Seq<usize> {
    order_of_n(c, c.weights@.len())
}

/// The greedy fractional-relaxation bound: take items in `order` while they
/// fit, and for the first item that overflows the remaining capacity add its
/// fractional contribution, rounded down.
pub open spec fn greedy_bound(c: Challenge, order: Seq<usize>, cap: int) -> int
    decreases order.len(),
{
    if order.len() == 0 {
        0
    } else {
        let i = order.first() as int;
        let w = c.weights@[i] as int;
        let v = c.values@[i] as int;
        if w <= cap {
            v + greedy_bound(c, order.drop_first(), cap - w)
        } else {
            (v * cap) / w
        }
    }
}

/// The fractional-relaxation upper bound the solver prunes with.
pub open spec fn frac_bound(c: Challenge) -> int {
    greedy_bound(c, ratio_order(c), c.max_weight as int)
}

/// Every entry of `sel` occurs in `avail`.
pub open spec fn sel_within(sel: Seq<usize>, avail: Seq<usize>) -> bool {
    forall|k: int| 0 <= k < sel.len() ==> avail.contains(sel[k])
}

/// `dp[w]` bounds the value of every item set drawn from `avail` whose weight
/// fits in `w`: the heart of the dynamic program's exactness.
pub open spec fn dominates(c: Challenge, avail: Seq<usize>, dp: Seq<u64>) -> bool {
    forall|w: int, sel: Seq<usize>|
        #![trigger dp[w], sel_sum(c.weights@, sel)]
        0 <= w < dp.len() && sel_ok(c, sel) && sel_within(sel, avail) && sel_sum(
            c.weights@,
            sel,
        ) <= w ==> sel_sum(c.values@, sel) <= dp[w]
}

/// The views of the rows of the inclusion table.
pub open spec fn tview(t: Seq<Vec<bool>>) -> Seq<Seq<bool>> {
    t.map_values(|r: Vec<bool>| r@)
}

/// The dynamic-programming value at capacity `w` after the first `j`
/// processing steps, reconstructed from the recorded inclusion bits.
pub open spec fn hist(c: Challenge, order: Seq<usize>, t: Seq<Seq<bool>>, j: int, w: int) -> int
    decreases j,
{
    if j <= 0 {
        0
    } else {
        let it = order[j - 1] as int;
        if t[j - 1][w] {
            hist(c, order, t, j - 1, w - c.weights@[it]) + c.values@[it]
        } else {
            hist(c, order, t, j - 1, w)
        }
    }
}

proof fn lemma_hist_agree(
    c: Challenge,
    order: Seq<usize>,
    t1: Seq<Seq<bool>>,
    t2: Seq<Seq<bool>>,
    j: int,
    w: int,
)
    requires
        forall|jj: int| 0 <= jj < j ==> t1[jj] == t2[jj],
    ensures
        hist(c, order, t1, j, w) == hist(c, order, t2, j, w),
    decreases j,
{
    if j > 0 {
        let it = order[j - 1] as int;
        lemma_hist_agree(c, order, t1, t2, j - 1, w - c.weights@[it]);
        lemma_hist_agree(c, order, t1, t2, j - 1, w);
    }
}

proof fn lemma_sel_sum_nonneg(xs: Seq<u32>, sel: Seq<usize>)
    requires
        forall|k: int| 0 <= k < sel.len() ==> (sel[k] as int) < xs.len(),
    ensures
        sel_sum(xs, sel) >= 0,
    decreases sel.len(),
{
    if sel.len() > 0 {
        lemma_sel_sum_nonneg(xs, sel.drop_last());
    }
}

proof fn lemma_sel_sum_remove(xs: Seq<u32>, sel: Seq<usize>, k: int)
    requires
        0 <= k < sel.len(),
    ensures
        sel_sum(xs, sel.remove(k)) == sel_sum(xs, sel) - xs[sel[k] as int],
    decreases sel.len(),
{
    if k == sel.len() - 1 {
        assert(sel.remove(k) =~= sel.drop_last());
    } else {
        assert(sel.remove(k).drop_last() =~= sel.drop_last().remove(k));
        assert(sel.remove(k).last() == sel.last());
        lemma_sel_sum_remove(xs, sel.drop_last(), k);
    }
}

proof fn lemma_sel_sum_drop_first(xs: Seq<u32>, sel: Seq<usize>)
    requires
        sel.len() > 0,
    ensures
        sel_sum(xs, sel) == xs[sel[0] as int] + sel_sum(xs, sel.drop_first()),
    decreases sel.len(),
{
    if sel.len() == 1 {
        assert(sel.drop_first() =~= Seq::<usize>::empty());
        assert(sel.drop_last() =~= Seq::<usize>::empty());
    } else {
        lemma_sel_sum_drop_first(xs, sel.drop_last());
        assert(sel.drop_last().drop_first() =~= sel.drop_first().drop_last());
        assert(sel.drop_first().last() == sel.last());
    }
}

proof fn lemma_sel_sum_reverse(xs: Seq<u32>, a: Seq<usize>, b: Seq<usize>)
    requires
        a.len() == b.len(),
        forall|m: int| 0 <= m < a.len() ==> b[m] == a[a.len() - 1 - m],
    ensures
        sel_sum(xs, a) == sel_sum(xs, b),
    decreases a.len(),
{
    if a.len() > 0 {
        let a1 = a.drop_first();
        let b1 = b.drop_last();
        assert(forall|m: int| 0 <= m < a1.len() ==> b1[m] == a1[a1.len() - 1 - m]);
        lemma_sel_sum_reverse(xs, a1, b1);
        lemma_sel_sum_drop_first(xs, a);
        assert(b.last() == a[0]);
    }
}

proof fn lemma_dominance_step(
    c: Challenge,
    order: Seq<usize>,
    i: int,
    dp0: Seq<u64>,
    dp1: Seq<u64>,
)
    requires
        c.weights@.len() == c.values@.len(),
        0 <= i < order.len(),
        (order[i] as int) < c.weights@.len(),
        dp0.len() == dp1.len(),
        dominates(c, order.subrange(0, i), dp0),
        forall|w: int| 0 <= w < dp1.len() ==> dp0[w] <= dp1[w],
        forall|w: int|
            c.weights@[order[i] as int] <= w < dp1.len() ==> dp0[w - c.weights@[order[i] as int]]
                + c.values@[order[i] as int] <= dp1[w],
    ensures
        dominates(c, order.subrange(0, i + 1), dp1),
{
    let ws = c.weights@;
    let vs = c.values@;
    let it = order[i];
    let wi = ws[it as int] as int;
    let vi = vs[it as int] as int;
    assert forall|w: int, sel: Seq<usize>|
        #![trigger dp1[w], sel_sum(c.weights@, sel)]
        0 <= w < dp1.len() && sel_ok(c, sel) && sel_within(sel, order.subrange(0, i + 1))
            && sel_sum(ws, sel) <= w implies sel_sum(vs, sel) <= dp1[w] by {
        if sel.contains(it) {
            let k = choose|k: int| 0 <= k < sel.len() && sel[k] == it;
            let sel2 = sel.remove(k);
            lemma_sel_sum_remove(ws, sel, k);
            lemma_sel_sum_remove(vs, sel, k);
            assert(forall|m: int|
                0 <= m < sel2.len() ==> sel2[m] == (if m < k {
                    sel[m]
                } else {
                    sel[m + 1]
                }));
            assert(sel_ok(c, sel2));
            assert(forall|m: int| 0 <= m < sel2.len() ==> sel2[m] != it);
            assert forall|m: int| 0 <= m < sel2.len() implies order.subrange(0, i).contains(
                sel2[m],
            ) by {
                let t = choose|t: int|
                    0 <= t < order.subrange(0, i + 1).len() && #[trigger] order.subrange(
                        0,
                        i + 1,
                    )[t] == sel2[m];
                assert(order.subrange(0, i + 1)[t] == order[t]);
                assert(t != i);
                assert(order.subrange(0, i)[t] == sel2[m]);
            }
            lemma_sel_sum_nonneg(ws, sel2);
            let w2 = w - wi;
            assert(sel_sum(ws, sel2) <= w2);
            assert(0 <= w2 < dp0.len());
            assert(sel_sum(vs, sel2) <= dp0[w2]);
            assert(dp0[w2] + vi <= dp1[w]);
        } else {
            assert forall|m: int| 0 <= m < sel.len() implies order.subrange(0, i).contains(
                sel[m],
            ) by {
                let t = choose|t: int|
                    0 <= t < order.subrange(0, i + 1).len() && #[trigger] order.subrange(
                        0,
                        i + 1,
                    )[t] == sel[m];
                assert(order.subrange(0, i + 1)[t] == order[t]);
                assert(t != i);
                assert(order.subrange(0, i)[t] == sel[m]);
            }
            assert(sel_sum(vs, sel) <= dp0[w]);
        }
    }
}

/// Item `i`'s value/weight ratio is at least item `j`'s, compared exactly by
/// cross-multiplication.
pub open spec fn ge_ratio(c: Challenge, i: usize, j: usize) -> bool {
    (c.values@[i as int] as int) * (c.weights@[j as int] as int) >= (c.values@[j as int] as int) * (
    c.weights@[i as int] as int)
}

/// `list` is in descending ratio order.
pub open spec fn ratio_sorted(c: Challenge, list: Seq<usize>) -> bool {
    forall|t: int, u: int|
        0 <= t < u < list.len() ==> ge_ratio(c, #[trigger] list[t], #[trigger] list[u])
}

proof fn lemma_le_div(k: int, a: int, b: int)
    requires
        b >= 1,
        a >= 0,
        k * b <= a,
    ensures
        k <= a / b,
{
    vstd::arithmetic::div_mod::lemma_fundamental_div_mod(a, b);
    vstd::arithmetic::div_mod::lemma_mod_division_less_than_divisor(a, b);
    assert(k <= a / b) by (nonlinear_arith)
        requires
            k * b <= a,
            a == b * (a / b) + (a % b),
            0 <= a % b < b,
            b >= 1,
    ;
}

proof fn lemma_div_mul_le(a: int, b: int)
    requires
        b >= 1,
        a >= 0,
    ensures
        (a / b) * b <= a,
        a / b >= 0,
{
    vstd::arithmetic::div_mod::lemma_fundamental_div_mod(a, b);
    vstd::arithmetic::div_mod::lemma_mod_division_less_than_divisor(a, b);
    assert((a / b) * b <= a && a / b >= 0) by (nonlinear_arith)
        requires
            a == b * (a / b) + (a % b),
            0 <= a % b < b,
            a >= 0,
            b >= 1,
    ;
}

/// Transitivity of the ratio order through a strictly dominated middle item.
proof fn lemma_ge_ratio_trans(c: Challenge, x: usize, y: usize, z: usize)
    requires
        c.weights@.len() == c.values@.len(),
        (x as int) < c.weights@.len(),
        (y as int) < c.weights@.len(),
        (z as int) < c.weights@.len(),
        (c.values@[x as int] as int) * (c.weights@[y as int] as int) > (c.values@[y as int] as int)
            * (c.weights@[x as int] as int),
        ge_ratio(c, y, z),
    ensures
        ge_ratio(c, x, z),
{
    let vx = c.values@[x as int] as int;
    let wx = c.weights@[x as int] as int;
    let vy = c.values@[y as int] as int;
    let wy = c.weights@[y as int] as int;
    let vz = c.values@[z as int] as int;
    let wz = c.weights@[z as int] as int;
    assert(wy >= 1) by (nonlinear_arith)
        requires
            vx * wy > vy * wx,
            wy >= 0,
            vy >= 0,
            wx >= 0,
    ;
    assert(vx * wz >= vz * wx) by (nonlinear_arith)
        requires
            vx * wy > vy * wx,
            vy * wz >= vz * wy,
            wy >= 1,
            vx >= 0,
            wx >= 0,
            vy >= 0,
            vz >= 0,
            wz >= 0,
    ;
}

/// Every entry of `list` is an index into the item lists.
pub open spec fn idx_in_range(c: Challenge, list: Seq<usize>) -> bool {
    forall|t: int| 0 <= t < list.len() ==> ((#[trigger] list[t]) as int) < c.weights@.len()
}

/// A hypothetical item of value `v` and weight `w` has at least the ratio of
/// every item of `list`.
pub open spec fn items_below(c: Challenge, v: int, w: int, list: Seq<usize>) -> bool {
    forall|t: int|
        0 <= t < list.len() ==> (c.values@[(#[trigger] list[t]) as int] as int) * w <= v * (
        c.weights@[list[t] as int] as int)
}

proof fn lemma_rest_premises(c: Challenge, list: Seq<usize>)
    requires
        list.len() > 0,
        idx_in_range(c, list),
        ratio_sorted(c, list),
    ensures
        idx_in_range(c, list.drop_first()),
        ratio_sorted(c, list.drop_first()),
        list.no_duplicates() ==> list.drop_first().no_duplicates(),
        items_below(
            c,
            c.values@[list.first() as int] as int,
            c.weights@[list.first() as int] as int,
            list.drop_first(),
        ),
{
    let rest = list.drop_first();
    assert(forall|t: int| 0 <= t < rest.len() ==> rest[t] == list[t + 1]);
    assert forall|t: int, u: int| 0 <= t < u < rest.len() implies ge_ratio(
        c,
        #[trigger] rest[t],
        #[trigger] rest[u],
    ) by {
        assert(ge_ratio(c, list[t + 1], list[u + 1]));
    }
    if list.no_duplicates() {
        assert forall|t: int, u: int|
            0 <= t < rest.len() && 0 <= u < rest.len() && t != u implies rest[t] != rest[u] by {
            assert(list[t + 1] != list[u + 1]);
        }
    }
    assert forall|t: int| 0 <= t < rest.len() implies (c.values@[(#[trigger] rest[t]) as int] as int)
        * (c.weights@[list.first() as int] as int) <= (c.values@[list.first() as int] as int) * (
    c.weights@[rest[t] as int] as int) by {
        assert(ge_ratio(c, list[0], list[t + 1]));
    }
}

/// The greedy fractional bound of a list whose every ratio is at most `v/w`
/// is at most `v * cap / w`.
proof fn lemma_gb_ratio_cap(c: Challenge, list: Seq<usize>, cap: int, v: int, w: int)
    requires
        c.weights@.len() == c.values@.len(),
        idx_in_range(c, list),
        ratio_sorted(c, list),
        items_below(c, v, w, list),
        cap >= 0,
        w >= 1,
        v >= 0,
    ensures
        greedy_bound(c, list, cap) >= 0,
        greedy_bound(c, list, cap) * w <= v * cap,
    decreases list.len(),
{
    if list.len() == 0 {
        assert(0 * w <= v * cap) by (nonlinear_arith)
            requires
                v >= 0,
                cap >= 0,
        ;
    } else {
        let b = list.first();
        let vb = c.values@[b as int] as int;
        let wb = c.weights@[b as int] as int;
        let rest = list.drop_first();
        lemma_rest_premises(c, list);
        assert(items_below(c, v, w, rest)) by {
            assert(forall|t: int| 0 <= t < rest.len() ==> rest[t] == list[t + 1]);
        }
        assert(vb * w <= v * wb);
        if wb <= cap {
            lemma_gb_ratio_cap(c, rest, cap - wb, v, w);
            let g = greedy_bound(c, rest, cap - wb);
            assert(greedy_bound(c, list, cap) == vb + g);
            assert(vb >= 0);
            assert((vb + g) * w <= v * cap && vb + g >= 0) by (nonlinear_arith)
                requires
                    g * w <= v * (cap - wb),
                    vb * w <= v * wb,
                    g >= 0,
                    vb >= 0,
                    w >= 1,
        ;
        } else {
            let f = (vb * cap) / wb;
            assert(vb * cap >= 0) by (nonlinear_arith)
                requires
                    vb >= 0,
                    cap >= 0,
            ;
            lemma_div_mul_le(vb * cap, wb);
            assert(f * w <= v * cap) by (nonlinear_arith)
                requires
                    f * wb <= vb * cap,
                    vb * w <= v * wb,
                    wb >= 1,
                    w >= 1,
                    cap >= 0,
                    f >= 0,
                    v >= 0,
                    vb >= 0,
            ;
            assert(greedy_bound(c, list, cap) == f);
        }
    }
}

/// Shrinking the capacity by the weight of an item that dominates every item
/// of the list costs the greedy fractional bound at most that item's value.
proof fn lemma_gb_lipschitz(c: Challenge, list: Seq<usize>, cap: int, v: int, w: int)
    requires
        c.weights@.len() == c.values@.len(),
        idx_in_range(c, list),
        ratio_sorted(c, list),
        items_below(c, v, w, list),
        0 <= w <= cap,
        v >= 0,
    ensures
        greedy_bound(c, list, cap) <= v + greedy_bound(c, list, cap - w),
    decreases list.len(),
{
    if list.len() == 0 {
    } else {
        let b = list.first();
        let vb = c.values@[b as int] as int;
        let wb = c.weights@[b as int] as int;
        let rest = list.drop_first();
        lemma_rest_premises(c, list);
        assert(items_below(c, v, w, rest)) by {
            assert(forall|t: int| 0 <= t < rest.len() ==> rest[t] == list[t + 1]);
        }
        assert(vb * w <= v * wb);
        assert(vb >= 0 && wb >= 0);
        if wb <= cap - w {
            lemma_gb_lipschitz(c, rest, cap - wb, v, w);
            assert(greedy_bound(c, list, cap) == vb + greedy_bound(c, rest, cap - wb));
            assert(greedy_bound(c, list, cap - w) == vb + greedy_bound(c, rest, cap - w - wb));
        } else if wb <= cap {
            assert(wb >= 1);
            lemma_gb_ratio_cap(c, rest, cap - wb, vb, wb);
            let g = greedy_bound(c, rest, cap - wb);
            let k = vb + g - v;
            assert(k * wb <= vb * (cap - w)) by (nonlinear_arith)
                requires
                    k == vb + g - v,
                    g * wb <= vb * (cap - wb),
                    vb * w <= v * wb,
                    vb >= 0,
                    v >= 0,
                    wb >= 1,
            ;
            assert(vb * (cap - w) >= 0) by (nonlinear_arith)
                requires
                    vb >= 0,
                    cap - w >= 0,
            ;
            lemma_le_div(k, vb * (cap - w), wb);
            assert(greedy_bound(c, list, cap) == vb + g);
            assert(greedy_bound(c, list, cap - w) == (vb * (cap - w)) / wb);
        } else {
            assert(wb >= 1);
            let f = (vb * cap) / wb;
            assert(vb * cap >= 0) by (nonlinear_arith)
                requires
                    vb >= 0,
                    cap >= 0,
            ;
            lemma_div_mul_le(vb * cap, wb);
            let k = f - v;
            assert(k * wb <= vb * (cap - w)) by (nonlinear_arith)
                requires
                    k == f - v,
                    f * wb <= vb * cap,
                    vb * w <= v * wb,
                    v >= 0,
                    wb >= 1,
            ;
            assert(vb * (cap - w) >= 0) by (nonlinear_arith)
                requires
                    vb >= 0,
                    cap - w >= 0,
            ;
            lemma_le_div(k, vb * (cap - w), wb);
            assert(greedy_bound(c, list, cap) == f);
            assert(greedy_bound(c, list, cap - w) == (vb * (cap - w)) / wb);
        }
    }
}

/// Soundness of the fractional relaxation: over a ratio-sorted list, the
/// greedy fractional bound is at least the value of every selection that
/// fits the capacity, so pruning by it never hides a solution.
proof fn lemma_gb_dominates(c: Challenge, list: Seq<usize>, cap: int, sel: Seq<usize>)
    requires
        c.weights@.len() == c.values@.len(),
        idx_in_range(c, list),
        list.no_duplicates(),
        ratio_sorted(c, list),
        cap >= 0,
        sel_ok(c, sel),
        sel_within(sel, list),
        sel_sum(c.weights@, sel) <= cap,
    ensures
        sel_sum(c.values@, sel) <= greedy_bound(c, list, cap),
    decreases list.len(),
{
    if list.len() == 0 {
        if sel.len() > 0 {
            assert(list.contains(sel[0]));
        }
    } else {
        let a = list.first();
        let va = c.values@[a as int] as int;
        let wa = c.weights@[a as int] as int;
        let rest = list.drop_first();
        lemma_rest_premises(c, list);
        assert(items_below(c, va, wa, rest));
        if sel.contains(a) {
            let k = choose|k: int| 0 <= k < sel.len() && sel[k] == a;
            let sel2 = sel.remove(k);
            lemma_sel_sum_remove(c.weights@, sel, k);
            lemma_sel_sum_remove(c.values@, sel, k);
            assert(forall|m: int|
                0 <= m < sel2.len() ==> sel2[m] == (if m < k {
                    sel[m]
                } else {
                    sel[m + 1]
                }));
            assert(sel_ok(c, sel2));
            assert(forall|m: int| 0 <= m < sel2.len() ==> sel2[m] != a);
            assert forall|m: int| 0 <= m < sel2.len() implies rest.contains(sel2[m]) by {
                let t = choose|t: int| 0 <= t < list.len() && #[trigger] list[t] == sel2[m];
                assert(t != 0);
                assert(rest[t - 1] == sel2[m]);
            }
            lemma_sel_sum_nonneg(c.weights@, sel2);
            lemma_gb_dominates(c, rest, cap - wa, sel2);
            assert(greedy_bound(c, list, cap) == va + greedy_bound(c, rest, cap - wa));
        } else {
            assert forall|m: int| 0 <= m < sel.len() implies rest.contains(sel[m]) by {
                let t = choose|t: int| 0 <= t < list.len() && #[trigger] list[t] == sel[m];
                if t == 0 {
                    assert(sel.contains(a));
                }
                assert(rest[t - 1] == sel[m]);
            }
            lemma_gb_dominates(c, rest, cap, sel);
            let g = greedy_bound(c, rest, cap);
            if wa <= cap {
                lemma_gb_lipschitz(c, rest, cap, va, wa);
                assert(greedy_bound(c, list, cap) == va + greedy_bound(c, rest, cap - wa));
            } else {
                assert(wa >= 1);
                lemma_gb_ratio_cap(c, rest, cap, va, wa);
                assert(va * cap >= 0) by (nonlinear_arith)
                    requires
                        va >= 0,
                        cap >= 0,
                ;
                lemma_le_div(g, va * cap, wa);
                assert(greedy_bound(c, list, cap) == (va * cap) / wa);
            }
        }
    }
}

proof fn lemma_insort_split(c: Challenge, x: usize, s: Seq<usize>, k: int)
    requires
        0 <= k <= s.len(),
        forall|t: int| 0 <= t < k ==> !prec(c, x, s[t]),
        k < s.len() ==> prec(c, x, s[k]),
    ensures
        insort(c, x, s) == s.insert(k, x),
    decreases s.len(),
{
    if s.len() == 0 {
        assert(insort(c, x, s) =~= s.insert(0, x));
    } else if k == 0 {
        assert(insort(c, x, s) =~= s.insert(0, x));
    } else {
        assert(!prec(c, x, s[0]));
        let s1 = s.drop_first();
        assert(forall|t: int| 0 <= t < k - 1 ==> s1[t] == s[t + 1]);
        lemma_insort_split(c, x, s1, k - 1);
        assert(insort(c, x, s) == seq![s.first()] + insort(c, x, s1));
        assert(seq![s.first()] + s1.insert(k - 1, x) =~= s.insert(k, x));
    }
}

fn ratio_before(c: &Challenge, i: usize, j: usize) -> (r: bool)
    requires
        c.weights@.len() == c.values@.len(),
        (i as int) < c.weights@.len(),
        (j as int) < c.weights@.len(),
    ensures
        r == prec(*c, i, j),
{
    let vi = c.values[i] as u64;
    let wi = c.weights[i] as u64;
    let vj = c.values[j] as u64;
    let wj = c.weights[j] as u64;
    proof {
        assert(vi * wj <= 0xffff_ffff * 0xffff_ffff && vj * wi <= 0xffff_ffff * 0xffff_ffff)
            by (nonlinear_arith)
            requires
                vi <= 0xffff_ffff,
                wi <= 0xffff_ffff,
                vj <= 0xffff_ffff,
                wj <= 0xffff_ffff,
        ;
    }
    let a = vi * wj;
    let b = vj * wi;
    a > b || (a == b && i < j)
}

/// Sort the item indices into the processing order: descending value/weight
/// ratio, ties by index.
fn sort_by_ratio(c: &Challenge) -> (order: Vec<usize>)
    requires
        c.weights@.len() == c.values@.len(),
    ensures
        order@ == ratio_order(*c),
        order@.len() == c.weights@.len(),
        order@.no_duplicates(),
        forall|j: int| 0 <= j < order@.len() ==> (order@[j] as int) < c.weights@.len(),
        forall|y: usize| (y as int) < c.weights@.len() ==> #[trigger] order@.contains(y),
        ratio_sorted(*c, order@),
{
    let n = c.weights.len();
    let mut order: Vec<usize> = Vec::new();
    let mut i: usize = 0;
    while i < n
        invariant
            i <= n,
            n == c.weights@.len(),
            c.weights@.len() == c.values@.len(),
            order@ == order_of_n(*c, i as nat),
            order@.len() == i,
            order@.no_duplicates(),
            forall|j: int| 0 <= j < order@.len() ==> (order@[j] as int) < i,
            forall|y: usize| (y as int) < i ==> #[trigger] order@.contains(y),
            ratio_sorted(*c, order@),
        decreases n - i,
    {
        let ghost prev = order@;
        let mut k: usize = 0;
        while k < order.len() && !ratio_before(c, i, order[k])
            invariant
                k <= order@.len(),
                i < n,
                n == c.weights@.len(),
                c.weights@.len() == c.values@.len(),
                forall|j: int| 0 <= j < order@.len() ==> (order@[j] as int) < i,
                forall|t: int| 0 <= t < k ==> !prec(*c, i, order@[t]),
            decreases order@.len() - k,
        {
            k += 1;
        }
        proof {
            lemma_insort_split(*c, i, order@, k as int);
        }
        order.insert(k, i);
        proof {
            assert(order@ == insort(*c, i, prev));
            assert(order@ == order_of_n(*c, (i + 1) as nat));
            assert forall|j: int| 0 <= j < order@.len() implies (order@[j] as int) < i + 1 by {
                assert(order@ == prev.insert(k as int, i));
            }
            assert forall|j: int, l: int| 0 <= j < l < order@.len() implies order@[j] != order@[l]
                by {
                assert(order@ == prev.insert(k as int, i));
            }
            assert forall|t: int, u: int|
                0 <= t < u < order@.len() implies ge_ratio(
                *c,
                #[trigger] order@[t],
                #[trigger] order@[u],
            ) by {
                assert(order@ == prev.insert(k as int, i));
                prev.insert_ensures(k as int, i);
                let ki = k as int;
                if u < ki {
                    assert(order@[t] == prev[t] && order@[u] == prev[u]);
                } else if u == ki {
                    assert(order@[u] == i);
                    assert(order@[t] == prev[t]);
                    assert(!prec(*c, i, prev[t]));
                } else {
                    assert(order@[u] == prev[u - 1]);
                    if t > ki {
                        assert(order@[t] == prev[t - 1]);
                    } else if t < ki {
                        assert(order@[t] == prev[t]);
                    } else {
                        assert(order@[t] == i);
                        assert(prec(*c, i, prev[ki]));
                        assert((prev[ki] as int) < i);
                        assert((c.values@[i as int] as int) * (c.weights@[prev[ki] as int] as int)
                            > (c.values@[prev[ki] as int] as int) * (
                        c.weights@[i as int] as int));
                        if u - 1 == ki {
                        } else {
                            assert(ge_ratio(*c, prev[ki], prev[u - 1]));
                            lemma_ge_ratio_trans(*c, i, prev[ki], prev[u - 1]);
                        }
                    }
                }
            }
            assert forall|y: usize| (y as int) < i + 1 implies #[trigger] order@.contains(y) by {
                assert(order@ == prev.insert(k as int, i));
                prev.insert_ensures(k as int, i);
                if (y as int) < i {
                    assert(prev.contains(y));
                    let idx = choose|idx: int| 0 <= idx < prev.len() && prev[idx] == y;
                    if idx < k {
                        assert(order@[idx] == y);
                    } else {
                        assert(order@[idx + 1] == y);
                    }
                } else {
                    assert(order@[k as int] == y);
                }
            }
        }
        i += 1;
    }
    order
}

/// Compute the fractional-relaxation upper bound over the processing order.
fn fractional_bound(c: &Challenge, order: &Vec<usize>) -> (ub: u64)
    requires
        c.weights@.len() == c.values@.len(),
        c.weights@.len() <= 0x1_0000_0000,
        order@.len() == c.weights@.len(),
        forall|j: int| 0 <= j < order@.len() ==> (order@[j] as int) < c.weights@.len(),
    ensures
        ub as int == greedy_bound(*c, order@, c.max_weight as int),
{
    let n = order.len();
    let mut ub: u64 = 0;
    let mut rem: u32 = c.max_weight;
    let mut k: usize = 0;
    let mut stopped = false;
    proof {
        assert(order@.skip(0) =~= order@);
    }
    while k < n && !stopped
        invariant
            k <= n,
            n == order@.len(),
            n == c.weights@.len(),
            c.weights@.len() == c.values@.len(),
            n <= 0x1_0000_0000,
            forall|j: int| 0 <= j < order@.len() ==> (order@[j] as int) < c.weights@.len(),
            !stopped ==> ub as int <= (k as int) * 0xffff_ffff,
            if stopped {
                ub as int == greedy_bound(*c, order@, c.max_weight as int)
            } else {
                greedy_bound(*c, order@, c.max_weight as int) == ub + greedy_bound(
                    *c,
                    order@.skip(k as int),
                    rem as int,
                )
            },
        decreases n - k, (if stopped { 0int } else { 1int }),
    {
        let it = order[k];
        let wk = c.weights[it];
        let vk = c.values[it];
        proof {
            assert(order@.skip(k as int)[0] == order@[k as int]);
            assert(order@.skip(k as int).drop_first() =~= order@.skip(k as int + 1));
        }
        if wk <= rem {
            proof {
                assert(ub as int + vk as int <= (k as int + 1) * 0xffff_ffff) by (nonlinear_arith)
                    requires
                        ub as int <= (k as int) * 0xffff_ffff,
                        vk <= 0xffff_ffff,
                        k >= 0,
                ;
                assert((k as int + 1) * 0xffff_ffff <= 0x1_0000_0000 * 0xffff_ffff)
                    by (nonlinear_arith)
                    requires
                        k as int + 1 <= 0x1_0000_0000,
                ;
            }
            ub = ub + vk as u64;
            rem = rem - wk;
            k = k + 1;
        } else {
            proof {
                assert(vk as u64 as int * (rem as u64 as int) <= 0xffff_ffff * 0xffff_ffff)
                    by (nonlinear_arith)
                    requires
                        vk <= 0xffff_ffff,
                        rem <= 0xffff_ffff,
                ;
            }
            let prod = (vk as u64) * (rem as u64);
            let frac = prod / (wk as u64);
            proof {
                assert(prod as int / (wk as int) <= 0xffff_ffff) by (nonlinear_arith)
                    requires
                        prod as int <= vk as int * rem as int,
                        0 <= vk <= 0xffff_ffff,
                        0 <= rem,
                        wk > rem,
                ;
                assert(ub as int + frac as int <= (k as int + 1) * 0xffff_ffff) by (nonlinear_arith)
                    requires
                        ub as int <= (k as int) * 0xffff_ffff,
                        frac as int <= 0xffff_ffff,
                        k >= 0,
                ;
                assert((k as int + 1) * 0xffff_ffff <= 0x1_0000_0000 * 0xffff_ffff)
                    by (nonlinear_arith)
                    requires
                        k as int + 1 <= 0x1_0000_0000,
                ;
            }
            ub = ub + frac;
            stopped = true;
        }
    }
    proof {
        if !stopped {
            assert(order@.skip(n as int) =~= Seq::<usize>::empty());
        }
    }
    ub
}

/// Recover the chosen items by walking the inclusion table backwards from the
/// full capacity, then reverse the walk to restore processing order.
fn reconstruct(
    c: &Challenge,
    order: &Vec<usize>,
    table: &Vec<Vec<bool>>,
    wcap: usize,
) -> (sel: Vec<usize>)
    requires
        c.weights@.len() == c.values@.len(),
        order@.no_duplicates(),
        forall|j: int| 0 <= j < order@.len() ==> (order@[j] as int) < c.weights@.len(),
        table@.len() <= order@.len(),
        forall|j: int| 0 <= j < table@.len() ==> (#[trigger] table@[j])@.len() == wcap + 1,
        forall|j: int, w: int|
            0 <= j < table@.len() && 0 <= w <= wcap && #[trigger] table@[j]@[w] ==> w
                >= c.weights@[order@[j] as int],
    ensures
        sel_ok(*c, sel@),
        sel_sum(c.weights@, sel@) <= wcap,
        sel_sum(c.values@, sel@) == hist(
            *c,
            order@,
            tview(table@),
            table@.len() as int,
            wcap as int,
        ),
{
    let m = table.len();
    let ghost tv = tview(table@);
    let ghost total = hist(*c, order@, tv, m as int, wcap as int);
    let mut selected: Vec<usize> = Vec::new();
    let ghost mut picked: Seq<int> = Seq::empty();
    let mut w: usize = wcap;
    let mut j: usize = m;
    while j > 0
        invariant
            j <= m,
            w <= wcap,
            m == table@.len(),
            c.weights@.len() == c.values@.len(),
            order@.no_duplicates(),
            forall|t: int| 0 <= t < order@.len() ==> (order@[t] as int) < c.weights@.len(),
            table@.len() <= order@.len(),
            forall|t: int| 0 <= t < table@.len() ==> (#[trigger] table@[t])@.len() == wcap + 1,
            forall|t: int, ww: int|
                0 <= t < table@.len() && 0 <= ww <= wcap && #[trigger] table@[t]@[ww] ==> ww
                    >= c.weights@[order@[t] as int],
            tv == tview(table@),
            total == hist(*c, order@, tv, m as int, wcap as int),
            picked.len() == selected@.len(),
            forall|t: int| 0 <= t < picked.len() ==> j as int <= #[trigger] picked[t] < m,
            forall|t: int|
                0 <= t < picked.len() ==> selected@[t] == order@[#[trigger] picked[t]],
            forall|t: int, u: int| 0 <= t < u < picked.len() ==> picked[t] > picked[u],
            sel_sum(c.values@, selected@) == total - hist(*c, order@, tv, j as int, w as int),
            sel_sum(c.weights@, selected@) == wcap - w,
        decreases j,
    {
        j -= 1;
        let ghost prev = selected@;
        let ghost w_prev = w as int;
        let included = table[j][w];
        proof {
            assert(tv[j as int] == table@[j as int]@);
        }
        if included {
            let it = order[j];
            selected.push(it);
            let wt = c.weights[it];
            proof {
                picked = picked.push(j as int);
                assert(selected@.drop_last() =~= prev);
                assert(selected@.last() == it);
                assert(w_prev >= wt as int);
            }
            w = w - (wt as usize);
        }
    }
    proof {
        assert(hist(*c, order@, tv, 0, w as int) == 0);
        assert forall|t: int, u: int| 0 <= t < u < selected@.len() implies selected@[t]
            != selected@[u] by {
            assert(selected@[t] == order@[picked[t]]);
            assert(selected@[u] == order@[picked[u]]);
            assert(picked[t] != picked[u]);
        }
    }
    let len = selected.len();
    let mut rev: Vec<usize> = Vec::new();
    let mut k: usize = 0;
    while k < len
        invariant
            k <= len,
            len == selected@.len(),
            rev@.len() == k,
            forall|t: int| 0 <= t < k ==> rev@[t] == selected@[len - 1 - t],
        decreases len - k,
    {
        rev.push(selected[len - 1 - k]);
        k += 1;
    }
    proof {
        lemma_sel_sum_reverse(c.weights@, selected@, rev@);
        lemma_sel_sum_reverse(c.values@, selected@, rev@);
        assert forall|t: int| 0 <= t < rev@.len() implies (rev@[t] as int) < c.weights@.len() by {
            assert(rev@[t] == selected@[len - 1 - t]);
            assert(selected@[len - 1 - t] == order@[picked[len - 1 - t]]);
        }
        assert forall|t: int, u: int| 0 <= t < u < rev@.len() implies rev@[t] != rev@[u] by {
            assert(rev@[t] == selected@[len - 1 - t]);
            assert(rev@[u] == selected@[len - 1 - u]);
        }
    }
    rev
}

/// Solve a knapsack instance: return the indices of a set of items whose
/// total weight fits the capacity and whose total value meets the threshold,
/// or report that no such set was found.
///
/// The solver is exact: the result is `Some` exactly when some valid
/// selection exists, and every returned selection is valid. The
/// fractional-relaxation bound never under-estimates the value of any
/// selection that fits the capacity, so pruning by it never hides a solvable
/// instance; when the bound falls below the threshold the instance is
/// unsolvable and the solver reports so at once.
pub fn solve_challenge(c: &Challenge) -> (r: Option<Solution>)
    requires
        well_formed(*c),
    ensures
        (r is Some) <==> solvable(*c),
        (r is Some) <==> (frac_bound(*c) >= c.min_value as int && solvable(*c)),
        r matches Some(sol) ==> valid_selection(*c, sol.items@),
{
    let n = c.weights.len();
    let wcap: usize = c.max_weight as usize;
    let wlen: usize = wcap + 1;
    let order = sort_by_ratio(c);
    let ub = fractional_bound(c, &order);
    if ub < c.min_value as u64 {
        proof {
            assert forall|sel: Seq<usize>| !valid_selection(*c, sel) by {
                if valid_selection(*c, sel) {
                    assert forall|m: int| 0 <= m < sel.len() implies order@.contains(sel[m]) by {
                        assert((sel[m] as int) < c.weights@.len());
                    }
                    lemma_gb_dominates(*c, order@, c.max_weight as int, sel);
                }
            }
        }
        return None;
    }
    if c.min_value == 0 {
        proof {
            let empty = Seq::<usize>::empty();
            assert(sel_sum(c.weights@, empty) == 0);
            assert(sel_sum(c.values@, empty) == 0);
            assert(valid_selection(*c, empty));
        }
        return Some(Solution { items: Vec::new() });
    }
    let mut dp: Vec<u64> = Vec::new();
    while dp.len() < wlen
        invariant
            dp@.len() <= wlen,
            forall|t: int| 0 <= t < dp@.len() ==> dp@[t] == 0,
        decreases wlen - dp@.len(),
    {
        dp.push(0);
    }
    let mut table: Vec<Vec<bool>> = Vec::new();
    proof {
        assert forall|w: int, sel: Seq<usize>|
            #![trigger dp@[w], sel_sum(c.weights@, sel)]
            0 <= w < dp@.len() && sel_ok(*c, sel) && sel_within(sel, order@.subrange(0, 0))
                && sel_sum(c.weights@, sel) <= w implies sel_sum(c.values@, sel) <= dp@[w] by {
            if sel.len() > 0 {
                assert(order@.subrange(0, 0).contains(sel[0]));
            }
        }
        assert(dominates(*c, order@.subrange(0, 0), dp@));
    }
    let mut i: usize = 0;
    while i < n
        invariant
            i <= n,
            n == c.weights@.len(),
            c.weights@.len() == c.values@.len(),
            n <= 0x1_0000_0000,
            wcap == c.max_weight as int,
            wlen == wcap + 1,
            order@ == ratio_order(*c),
            order@.len() == n,
            order@.no_duplicates(),
            forall|j: int| 0 <= j < order@.len() ==> (order@[j] as int) < n,
            forall|y: usize| (y as int) < n ==> #[trigger] order@.contains(y),
            frac_bound(*c) >= c.min_value as int,
            c.min_value >= 1,
            dp@.len() == wlen,
            table@.len() == i,
            forall|j: int| 0 <= j < table@.len() ==> (#[trigger] table@[j])@.len() == wlen,
            forall|j: int, w: int|
                0 <= j < table@.len() && 0 <= w <= wcap && #[trigger] table@[j]@[w] ==> w
                    >= c.weights@[order@[j] as int],
            forall|w: int|
                0 <= w < wlen ==> dp@[w] as int == hist(
                    *c,
                    order@,
                    tview(table@),
                    i as int,
                    w,
                ),
            forall|w: int| 0 <= w < wlen ==> dp@[w] as int <= (i as int) * 0xffff_ffff,
            dominates(*c, order@.subrange(0, i as int), dp@),
            (dp@[wcap as int] as int) < c.min_value as int,
        decreases n - i,
    {
        let it = order[i];
        let wi = c.weights[it];
        let vi = c.values[it];
        let wi_us = wi as usize;
        let ghost dp0 = dp@;
        let ghost tv0 = tview(table@);
        let mut row: Vec<bool> = Vec::new();
        while row.len() < wlen
            invariant
                row@.len() <= wlen,
                forall|t: int| 0 <= t < row@.len() ==> row@[t] == false,
            decreases wlen - row@.len(),
        {
            row.push(false);
        }
        let mut w: usize = wlen;
        while w > wi_us
            invariant
                wi_us <= w <= wlen || w == wlen,
                w <= wlen,
                wi_us == wi as int,
                i < n,
                n <= 0x1_0000_0000,
                c.weights@.len() == c.values@.len(),
                (it as int) < c.weights@.len(),
                wi == c.weights@[it as int],
                vi == c.values@[it as int],
                dp@.len() == wlen,
                row@.len() == wlen,
                dp0.len() == wlen,
                forall|t: int| 0 <= t < dp0.len() ==> dp0[t] as int <= (i as int) * 0xffff_ffff,
                forall|ww: int| 0 <= ww < w ==> (#[trigger] dp@[ww]) == dp0[ww],
                forall|ww: int| 0 <= ww < w ==> (#[trigger] row@[ww]) == false,
                forall|ww: int|
                    w <= ww < wlen ==> ((#[trigger] row@[ww]) ==> ww >= wi_us && dp@[ww] as int
                        == dp0[ww - wi_us] as int + vi as int && dp0[ww - wi_us] as int
                        + vi as int > dp0[ww] as int),
                forall|ww: int|
                    w <= ww < wlen ==> (!(#[trigger] row@[ww]) ==> (#[trigger] dp@[ww])
                        == dp0[ww]),
                forall|ww: int|
                    w <= ww < wlen ==> (!(#[trigger] row@[ww]) ==> (ww >= wi_us ==> dp0[ww
                        - wi_us] as int + vi as int <= dp0[ww] as int)),
            decreases w,
        {
            w -= 1;
            let ghost dp_in = dp@;
            let ghost row_in = row@;
            proof {
                assert(dp0[w - wi_us] as int + vi as int <= (i as int) * 0xffff_ffff
                    + 0xffff_ffff);
                assert((i as int) * 0xffff_ffff + 0xffff_ffff == (i as int + 1) * 0xffff_ffff)
                    by (nonlinear_arith);
                assert((i as int + 1) * 0xffff_ffff <= 0x1_0000_0000 * 0xffff_ffff)
                    by (nonlinear_arith)
                    requires
                        i as int + 1 <= 0x1_0000_0000,
                ;
            }
            let cand = dp[w - wi_us] + vi as u64;
            if cand > dp[w] {
                dp[w] = cand;
                row[w] = true;
                proof {
                    assert(dp@ == dp_in.update(w as int, cand));
                    assert(row@ == row_in.update(w as int, true));
                }
            }
            proof {
                assert(dp_in[w as int] == dp0[w as int]);
                assert(dp_in[w - wi_us] == dp0[w - wi_us]);
                assert forall|ww: int|
                    w <= ww < wlen implies (!(#[trigger] row@[ww]) ==> (#[trigger] dp@[ww])
                        == dp0[ww] && (ww >= wi_us ==> dp0[ww - wi_us] as int + vi as int
                        <= dp0[ww] as int)) by {
                    if ww == w {
                        if !row@[ww] {
                            assert(dp@[ww] == dp_in[ww]);
                            assert(cand as int <= dp0[ww] as int);
                        }
                    } else {
                        assert(dp@[ww] == dp_in[ww]);
                        assert(row@[ww] == row_in[ww]);
                    }
                }
            }
        }
        proof {
            assert(w == wi_us || (w == wlen && wlen <= wi_us));
            assert forall|ww: int|
                0 <= ww < wlen implies ((#[trigger] row@[ww]) ==> ww >= wi_us && dp@[ww] as int
                    == dp0[ww - wi_us] as int + vi as int) by {
                if ww < w {
                    assert(row@[ww] == false);
                }
            }
            assert forall|ww: int|
                0 <= ww < wlen implies (!(#[trigger] row@[ww]) ==> dp@[ww] == dp0[ww]) by {
                if ww < w {
                    assert(dp@[ww] == dp0[ww]);
                }
            }
            assert forall|ww: int| 0 <= ww < wlen implies dp0[ww] <= #[trigger] dp@[ww] by {
                if row@[ww] {
                    assert(dp@[ww] as int == dp0[ww - wi_us] as int + vi as int);
                } else if ww < w {
                    assert(dp@[ww] == dp0[ww]);
                }
            }
            assert forall|ww: int| wi as int <= ww < wlen implies dp0[ww - wi as int] as int
                + vi as int <= dp@[ww] as int by {
                assert(ww >= w);
                if row@[ww] {
                } else {
                    assert(dp@[ww] == dp0[ww]);
                }
            }
        }
        let ghost prev_table = table@;
        table.push(row);
        proof {
            let tv1 = tview(table@);
            assert(tv1.len() == i + 1);
            assert forall|jj: int| 0 <= jj < i + 1 implies tv1[jj] == table@[jj]@ by {}
            assert(forall|jj: int| 0 <= jj < i ==> table@[jj] == prev_table[jj]);
            assert(forall|jj: int| 0 <= jj < i ==> tv1[jj] == tv0[jj]);
            assert(tv1[i as int] == table@[i as int]@);
            assert forall|w: int| 0 <= w < wlen implies dp@[w] as int == hist(
                *c,
                order@,
                tv1,
                i as int + 1,
                w,
            ) by {
                lemma_hist_agree(*c, order@, tv1, tv0, i as int, w);
                lemma_hist_agree(*c, order@, tv1, tv0, i as int, w - wi as int);
            }
            assert forall|w: int| 0 <= w < wlen implies dp@[w] as int <= (i as int + 1)
                * 0xffff_ffff by {
                assert((i as int) * 0xffff_ffff + 0xffff_ffff == (i as int + 1) * 0xffff_ffff)
                    by (nonlinear_arith);
            }
            lemma_dominance_step(*c, order@, i as int, dp0, dp@);
        }
        let hit = dp[wcap];
        if hit >= c.min_value as u64 {
            let items = reconstruct(c, &order, &table, wcap);
            proof {
                assert(sel_sum(c.values@, items@) == hist(
                    *c,
                    order@,
                    tview(table@),
                    i as int + 1,
                    wcap as int,
                ));
                assert(sel_sum(c.values@, items@) >= c.min_value as int);
                assert(valid_selection(*c, items@));
            }
            return Some(Solution { items });
        }
        i += 1;
    }
    proof {
        assert(order@.subrange(0, n as int) =~= order@);
        assert forall|sel: Seq<usize>| !valid_selection(*c, sel) by {
            if valid_selection(*c, sel) {
                assert forall|t: int| 0 <= t < sel.len() implies order@.contains(sel[t]) by {
                    assert((sel[t] as int) < n);
                }
                assert(sel_within(sel, order@.subrange(0, n as int)));
                assert(sel_sum(c.weights@, sel) <= wcap as int);
                assert(sel_sum(c.values@, sel) <= dp@[wcap as int]);
            }
        }
    }
    None
}

} // verus!
