//! A 0/1 knapsack solver over candidate purchase steps.
//!
//! The solver sweeps a one-dimensional table of capacities, and beside each
//! table cell keeps a persistent list of the chosen step indices; an improved
//! cell prepends one node to the list of the cell it was improved from, so
//! cells share list tails and reconstruction costs one node per improvement
//! rather than one copy of the whole selection per cell.

use std::rc::Rc;
use vstd::math::abs;
use vstd::prelude::*;

use crate::rclist::RcList;
use crate::strategy::EtfItem;

verus! {

/// One candidate purchase step: buying it costs `weight` (the unit price),
/// gains `value` (the squared-error reduction), and buys one more unit of the
/// asset at position `etf_index`.
#[derive(Debug, Copy, Clone, Eq, PartialEq, PartialOrd, Ord, Structural)]
pub struct KnapSackItem {
    pub value: i64,
    pub weight: i64,
    pub etf_index: usize,
}

impl KnapSackItem {
    /// Bundles value, weight and originating asset index into one step.
    pub fn new(value: i64, weight: i64, etf_index: usize) -> (r: KnapSackItem)
        ensures
            r == (KnapSackItem { value, weight, etf_index }),
    {
        KnapSackItem { value, weight, etf_index }
    }
}

/// The elements of a sequence of machine integers, as mathematical integers.
pub open spec fn int_seq(xs: Seq<i64>) -> Seq<int> {
    xs.map_values(|x: i64| x as int)
}

/// The elements of a sequence of indices, as mathematical integers.
pub open spec fn index_seq(xs: Seq<usize>) -> Seq<int> {
    xs.map_values(|x: usize| x as int)
}

/// The sum of the first `i` elements of `xs`.
pub open spec fn prefix_sum(xs: Seq<int>, i: int) -> int
    decreases i,
{
    if i <= 0 {
        0
    } else {
        prefix_sum(xs, i - 1) + xs[i - 1]
    }
}

/// The best total value achievable with the first `i` items (each usable at
/// most once) under a total-weight cap of `w`: the classic knapsack
/// recurrence, deciding for item `i - 1` whether taking it beats skipping it.
pub open spec fn best_value(ws: Seq<int>, vs: Seq<int>, i: int, w: int) -> int
    decreases i,
{
    if i <= 0 {
        0
    } else if ws[i - 1] <= w {
        let skip = best_value(ws, vs, i - 1, w);
        let take = best_value(ws, vs, i - 1, w - ws[i - 1]) + vs[i - 1];
        if skip < take {
            take
        } else {
            skip
        }
    } else {
        best_value(ws, vs, i - 1, w)
    }
}

/// The selection behind `best_value`, highest index first: item `i - 1` is
/// taken exactly when taking it strictly beats skipping it, so ties always
/// fall to the selection made of lower-indexed items.
pub open spec fn best_selection(ws: Seq<int>, vs: Seq<int>, i: int, w: int) -> Seq<int>
    decreases i,
{
    if i <= 0 {
        Seq::empty()
    } else if ws[i - 1] <= w && best_value(ws, vs, i - 1, w) < best_value(
        ws,
        vs,
        i - 1,
        w - ws[i - 1],
    ) + vs[i - 1] {
        seq![i - 1] + best_selection(ws, vs, i - 1, w - ws[i - 1])
    } else {
        best_selection(ws, vs, i - 1, w)
    }
}

/// The sum of `xs[sel[0]] + xs[sel[1]] + ...`: the total weight or total
/// value of the items a selection picks.
pub open spec fn picked_sum(xs: Seq<int>, sel: Seq<int>) -> int
    decreases sel.len(),
{
    if sel.len() == 0 {
        0
    } else {
        xs[sel[0]] + picked_sum(xs, sel.drop_first())
    }
}

/// The indices a selection may pick from the first `i` items.
pub open spec fn selection_in_range(sel: Seq<int>, i: int) -> bool {
    forall|k: int| 0 <= k < sel.len() ==> 0 <= #[trigger] sel[k] < i
}

proof fn lemma_best_value_bounds(ws: Seq<int>, vs: Seq<int>, i: int, w: int)
    requires
        0 <= i <= vs.len(),
        forall|j: int| 0 <= j < i ==> #[trigger] vs[j] >= 0,
    ensures
        0 <= best_value(ws, vs, i, w),
        best_value(ws, vs, i, w) <= prefix_sum(vs, i),
    decreases i,
{
    if i > 0 {
        lemma_best_value_bounds(ws, vs, i - 1, w);
        lemma_best_value_bounds(ws, vs, i - 1, w - ws[i - 1]);
    }
}

/// Partial sums of a non-negative sequence grow with their length.
pub proof fn lemma_prefix_sum_monotone(xs: Seq<int>, i: int, j: int)
    requires
        0 <= i <= j <= xs.len(),
        forall|k: int| 0 <= k < j ==> #[trigger] xs[k] >= 0,
    ensures
        prefix_sum(xs, i) <= prefix_sum(xs, j),
    decreases j - i,
{
    if i < j {
        lemma_prefix_sum_monotone(xs, i, j - 1);
    }
}

/// In a non-negative sequence, each element is at most the whole sum.
pub proof fn lemma_prefix_sum_element(xs: Seq<int>, i: int, n: int)
    requires
        0 <= i < n <= xs.len(),
        forall|k: int| 0 <= k < n ==> #[trigger] xs[k] >= 0,
    ensures
        xs[i] <= prefix_sum(xs, n),
        0 <= prefix_sum(xs, n),
{
    lemma_prefix_sum_monotone(xs, 0, i);
    lemma_prefix_sum_monotone(xs, i + 1, n);
}

/// Law: with the item list held fixed, raising the capacity never lowers the
/// best achievable value.
pub proof fn lemma_best_value_monotone_in_capacity(
    ws: Seq<int>,
    vs: Seq<int>,
    i: int,
    w1: int,
    w2: int,
)
    requires
        w1 <= w2,
    ensures
        best_value(ws, vs, i, w1) <= best_value(ws, vs, i, w2),
    decreases i,
{
    if i > 0 {
        lemma_best_value_monotone_in_capacity(ws, vs, i - 1, w1, w2);
        if ws[i - 1] <= w1 {
            lemma_best_value_monotone_in_capacity(ws, vs, i - 1, w1 - ws[i - 1], w2 - ws[i - 1]);
        }
    }
}

/// Law: the selection behind `best_value` is a real subset of the items:
/// its indices are strictly decreasing (so no index repeats and each names
/// one of the first `i` items), its weights sum to at most the capacity, and
/// its values sum to exactly the best value.
pub proof fn lemma_best_selection_valid(ws: Seq<int>, vs: Seq<int>, i: int, w: int)
    requires
        0 <= i <= ws.len(),
        0 <= w,
        forall|j: int| 0 <= j < i ==> #[trigger] ws[j] >= 1,
    ensures
        selection_in_range(best_selection(ws, vs, i, w), i),
        forall|k1: int, k2: int|
            0 <= k1 < k2 < best_selection(ws, vs, i, w).len() ==> #[trigger] best_selection(
                ws,
                vs,
                i,
                w,
            )[k1] > #[trigger] best_selection(ws, vs, i, w)[k2],
        picked_sum(ws, best_selection(ws, vs, i, w)) <= w,
        picked_sum(vs, best_selection(ws, vs, i, w)) == best_value(ws, vs, i, w),
    decreases i,
{
    if i > 0 {
        let sel = best_selection(ws, vs, i, w);
        if ws[i - 1] <= w && best_value(ws, vs, i - 1, w) < best_value(ws, vs, i - 1, w - ws[i - 1])
            + vs[i - 1] {
            lemma_best_selection_valid(ws, vs, i - 1, w - ws[i - 1]);
            let tail = best_selection(ws, vs, i - 1, w - ws[i - 1]);
            assert(sel.drop_first() =~= tail);
            assert(sel[0] == i - 1);
        } else {
            lemma_best_selection_valid(ws, vs, i - 1, w);
        }
    }
}

/// Dropping the pick at `idx` drops exactly that item's contribution.
pub proof fn lemma_picked_sum_remove(xs: Seq<int>, sel: Seq<int>, idx: int)
    requires
        0 <= idx < sel.len(),
        forall|k: int| 0 <= k < sel.len() ==> 0 <= #[trigger] sel[k] < xs.len(),
    ensures
        picked_sum(xs, sel.remove(idx)) == picked_sum(xs, sel) - xs[sel[idx]],
    decreases idx,
{
    if idx == 0 {
        assert(sel.remove(0) =~= sel.drop_first());
    } else {
        assert(sel.remove(idx).drop_first() =~= sel.drop_first().remove(idx - 1));
        assert(sel.remove(idx)[0] == sel[0]);
        lemma_picked_sum_remove(xs, sel.drop_first(), idx - 1);
    }
}

/// A selection's picked sum does not depend on the order of its picks:
/// reversing the selection leaves it unchanged.
pub proof fn lemma_picked_sum_reverse(xs: Seq<int>, sel: Seq<int>)
    requires
        forall|k: int| 0 <= k < sel.len() ==> 0 <= #[trigger] sel[k] < xs.len(),
    ensures
        picked_sum(xs, sel.reverse()) == picked_sum(xs, sel),
    decreases sel.len(),
{
    if sel.len() > 0 {
        let rev = sel.reverse();
        assert(rev.len() == sel.len());
        assert(rev[rev.len() - 1] == sel[0]);
        assert(rev.remove(rev.len() - 1) =~= sel.drop_first().reverse());
        assert forall|k: int| 0 <= k < rev.len() implies 0 <= #[trigger] rev[k] < xs.len() by {
            assert(rev[k] == sel[sel.len() - 1 - k]);
        }
        lemma_picked_sum_remove(xs, rev, rev.len() - 1);
        lemma_picked_sum_reverse(xs, sel.drop_first());
        assert(picked_sum(xs, sel) == xs[sel[0]] + picked_sum(xs, sel.drop_first()));
    }
}

proof fn lemma_picked_sum_nonneg(xs: Seq<int>, sel: Seq<int>, n: int)
    requires
        n <= xs.len(),
        selection_in_range(sel, n),
        forall|j: int| 0 <= j < n ==> #[trigger] xs[j] >= 0,
    ensures
        picked_sum(xs, sel) >= 0,
    decreases sel.len(),
{
    if sel.len() > 0 {
        lemma_picked_sum_nonneg(xs, sel.drop_first(), n);
    }
}

/// Law: no valid selection beats the solver. Any duplicate-free list of item
/// indices among the first `i` items whose weights sum to at most `w` has a
/// total value of at most `best_value`.
pub proof fn lemma_best_value_optimal(ws: Seq<int>, vs: Seq<int>, i: int, w: int, sel: Seq<int>)
    requires
        0 <= i <= ws.len(),
        vs.len() == ws.len(),
        forall|j: int| 0 <= j < i ==> #[trigger] ws[j] >= 1,
        selection_in_range(sel, i),
        sel.no_duplicates(),
        picked_sum(ws, sel) <= w,
    ensures
        picked_sum(vs, sel) <= best_value(ws, vs, i, w),
    decreases i,
{
    if i == 0 {
        assert(sel.len() == 0);
    } else if sel.contains(i - 1) {
        let idx = choose|idx: int| 0 <= idx < sel.len() && sel[idx] == i - 1;
        let sel2 = sel.remove(idx);
        sel.remove_ensures(idx);
        lemma_picked_sum_remove(ws, sel, idx);
        lemma_picked_sum_remove(vs, sel, idx);
        assert(selection_in_range(sel2, i - 1)) by {
            assert forall|k: int| 0 <= k < sel2.len() implies 0 <= #[trigger] sel2[k] < i
                - 1 by {
                if k < idx {
                    assert(sel2[k] == sel[k]);
                    assert(sel[k] != sel[idx]);
                } else {
                    assert(sel2[k] == sel[k + 1]);
                    assert(sel[k + 1] != sel[idx]);
                }
            }
        }
        assert(sel2.no_duplicates()) by {
            assert forall|k1: int, k2: int|
                0 <= k1 < sel2.len() && 0 <= k2 < sel2.len() && k1 != k2 implies sel2[k1]
                != sel2[k2] by {
                let m1: int = if k1 < idx {
                    k1
                } else {
                    k1 + 1
                };
                let m2: int = if k2 < idx {
                    k2
                } else {
                    k2 + 1
                };
                assert(sel2[k1] == sel[m1]);
                assert(sel2[k2] == sel[m2]);
            }
        }
        assert(picked_sum(ws, sel2) >= 0) by {
            lemma_picked_sum_nonneg(ws, sel2, i - 1);
        }
        lemma_best_value_optimal(ws, vs, i - 1, w - ws[i - 1], sel2);
    } else {
        assert(selection_in_range(sel, i - 1)) by {
            assert forall|k: int| 0 <= k < sel.len() implies 0 <= #[trigger] sel[k] < i - 1 by {
                assert(sel[k] != i - 1);
            }
        }
        lemma_best_value_optimal(ws, vs, i - 1, w, sel);
    }
}

/// Squared allocation error of asset `e` after buying `k` more units.
pub open spec fn sq_error(e: EtfItem, k: int) -> int {
    let diff = e.target - e.cumulative - e.price * k;
    diff * diff
}

/// Marginal value of buying the `k`-th unit of asset `e`: the squared error
/// it removes.
pub open spec fn step_value(e: EtfItem, k: int) -> int {
    sq_error(e, k - 1) - sq_error(e, k)
}

/// The candidate steps emitted for the asset at position `idx`, from the
/// `k`-th unit on, as `(value, weight, asset index)` triples: generation
/// stops at the first unit that no longer fits the budget or no longer
/// reduces the error.
pub open spec fn asset_steps(e: EtfItem, b: int, idx: int, k: int) -> Seq<(int, int, int)>
    decreases b + e.price - e.price * k,
        when e.price >= 1
    via asset_steps_decreases
{
    if e.price * k <= b && step_value(e, k) > 0 {
        seq![(step_value(e, k), e.price as int, idx)] + asset_steps(e, b, idx, k + 1)
    } else {
        Seq::empty()
    }
}

#[via_fn]
proof fn asset_steps_decreases(e: EtfItem, b: int, idx: int, k: int) {
    assert(e.price * (k + 1) == e.price * k + e.price) by (nonlinear_arith);
}

proof fn lemma_unit_step_bounds(p: int, k: int)
    requires
        1 <= p,
        1 <= k,
    ensures
        p * (k + 1) == p * k + p,
        p <= p * k,
        k <= p * k,
        p * 1 == p,
{
    assert(p * (k + 1) == p * k + p) by (nonlinear_arith);
    assert(p <= p * k && k <= p * k) by (nonlinear_arith)
        requires
            1 <= p,
            1 <= k,
    ;
}

proof fn lemma_square_bounds(d: int, s: int, m: int)
    requires
        0 <= s,
        -s <= d <= s,
        s * s <= m,
        1 <= m,
    ensures
        0 <= d * d <= m,
        s <= m,
{
    assert(0 <= d * d <= s * s) by (nonlinear_arith)
        requires
            -s <= d <= s,
    ;
    assert(s <= s * s || s <= 1) by (nonlinear_arith)
        requires
            0 <= s,
    ;
}

/// The candidate steps of the first `i` assets, in asset order.
pub open spec fn gen_steps(etfs: Seq<EtfItem>, b: int, i: int) -> Seq<(int, int, int)>
    decreases i,
{
    if i <= 0 {
        Seq::empty()
    } else {
        gen_steps(etfs, b, i - 1) + asset_steps(etfs[i - 1], b, i - 1, 1)
    }
}

/// A candidate step as a `(value, weight, asset index)` triple.
pub open spec fn item_view(it: KnapSackItem) -> (int, int, int) {
    (it.value as int, it.weight as int, it.etf_index as int)
}

/// A step list as `(value, weight, asset index)` triples.
pub open spec fn items_view(s: Seq<KnapSackItem>) -> Seq<(int, int, int)> {
    s.map_values(|it: KnapSackItem| item_view(it))
}

/// The weights (unit prices) of a step list.
pub open spec fn step_weights(s: Seq<(int, int, int)>) -> Seq<int> {
    s.map_values(|t: (int, int, int)| t.1)
}

/// The values (error reductions) of a step list.
pub open spec fn step_values(s: Seq<(int, int, int)>) -> Seq<int> {
    s.map_values(|t: (int, int, int)| t.0)
}

/// The sum of the squared allocation errors the first `i` assets start from:
/// an upper bound on the total value of their candidate steps.
pub open spec fn sum_initial_error(etfs: Seq<EtfItem>, i: int) -> int
    decreases i,
{
    if i <= 0 {
        0
    } else {
        sum_initial_error(etfs, i - 1) + sq_error(etfs[i - 1], 0)
    }
}

proof fn lemma_sq_error_nonneg(e: EtfItem, k: int)
    ensures
        0 <= sq_error(e, k),
{
    let d: int = e.target - e.cumulative - e.price * k;
    assert(0 <= d * d) by (nonlinear_arith);
}

proof fn lemma_prefix_sum_congruent(xs: Seq<int>, ys: Seq<int>, i: int)
    requires
        i <= xs.len(),
        i <= ys.len(),
        forall|k: int| 0 <= k < i ==> xs[k] == ys[k],
    ensures
        prefix_sum(xs, i) == prefix_sum(ys, i),
    decreases i,
{
    if i > 0 {
        lemma_prefix_sum_congruent(xs, ys, i - 1);
    }
}

proof fn lemma_prefix_sum_concat(a: Seq<int>, c: Seq<int>, j: int)
    requires
        0 <= j <= c.len(),
    ensures
        prefix_sum(a + c, a.len() + j) == prefix_sum(a, a.len() as int) + prefix_sum(c, j),
    decreases j,
{
    if j == 0 {
        lemma_prefix_sum_congruent(a + c, a, a.len() as int);
    } else {
        lemma_prefix_sum_concat(a, c, j - 1);
        assert((a + c)[a.len() + j - 1] == c[j - 1]);
    }
}

/// Every step of one asset carries that asset's price as its weight, a
/// strictly positive value, and the asset's own index; a step exists only if
/// its price fits the budget.
proof fn lemma_asset_steps_wf(e: EtfItem, b: int, idx: int, k: int)
    requires
        1 <= e.price,
        1 <= k,
    ensures
        forall|x: int|
            0 <= x < asset_steps(e, b, idx, k).len() ==> {
                let st = #[trigger] asset_steps(e, b, idx, k)[x];
                &&& 1 <= st.0
                &&& st.1 == e.price
                &&& st.1 <= b
                &&& st.2 == idx
            },
    decreases b + e.price - e.price * k,
{
    if e.price * k <= b && step_value(e, k) > 0 {
        lemma_unit_step_bounds(e.price as int, k);
        lemma_asset_steps_wf(e, b, idx, k + 1);
        let s = asset_steps(e, b, idx, k);
        let tail = asset_steps(e, b, idx, k + 1);
        assert forall|x: int| 0 <= x < s.len() implies {
            let st = #[trigger] s[x];
            &&& 1 <= st.0
            &&& st.1 == e.price
            &&& st.1 <= b
            &&& st.2 == idx
        } by {
            if x > 0 {
                assert(s[x] == tail[x - 1]);
            }
        }
    }
}

/// An asset emits at most one step per whole budget unit.
proof fn lemma_asset_steps_len(e: EtfItem, b: int, idx: int, k: int)
    requires
        1 <= e.price,
        1 <= k,
    ensures
        asset_steps(e, b, idx, k).len() <= (if b + 1 - k >= 0 {
            b + 1 - k
        } else {
            0
        }),
    decreases b + e.price - e.price * k,
{
    if e.price * k <= b && step_value(e, k) > 0 {
        lemma_unit_step_bounds(e.price as int, k);
        lemma_asset_steps_len(e, b, idx, k + 1);
    }
}

/// One asset's step values telescope: they sum to the part of its starting
/// squared error that its steps remove, so to at most that squared error.
proof fn lemma_asset_steps_value_sum(e: EtfItem, b: int, idx: int, k: int)
    requires
        1 <= e.price,
        1 <= k,
    ensures
        ({
            let vals = step_values(asset_steps(e, b, idx, k));
            0 <= prefix_sum(vals, vals.len() as int) <= sq_error(e, k - 1)
        }),
    decreases b + e.price - e.price * k,
{
    lemma_sq_error_nonneg(e, k - 1);
    if e.price * k <= b && step_value(e, k) > 0 {
        lemma_unit_step_bounds(e.price as int, k);
        lemma_asset_steps_value_sum(e, b, idx, k + 1);
        let head: Seq<int> = seq![step_value(e, k)];
        let tail_vals = step_values(asset_steps(e, b, idx, k + 1));
        assert(step_values(asset_steps(e, b, idx, k)) =~= head + tail_vals);
        lemma_prefix_sum_concat(head, tail_vals, tail_vals.len() as int);
        assert(prefix_sum(head, 0) == 0);
        assert(prefix_sum(head, 1) == step_value(e, k));
        lemma_prefix_sum_congruent(
            step_values(asset_steps(e, b, idx, k)),
            head + tail_vals,
            (head + tail_vals).len() as int,
        );
    }
}

/// Every generated step has a positive value, a weight that is one of the
/// first `i` assets' prices and fits the budget, and that asset's index.
pub proof fn lemma_gen_steps_wf(etfs: Seq<EtfItem>, b: int, i: int)
    requires
        0 <= i <= etfs.len(),
        forall|j: int| 0 <= j < i ==> 1 <= (#[trigger] etfs[j]).price,
    ensures
        forall|x: int|
            0 <= x < gen_steps(etfs, b, i).len() ==> {
                let st = #[trigger] gen_steps(etfs, b, i)[x];
                &&& 1 <= st.0
                &&& 1 <= st.1 <= b
                &&& 0 <= st.2 < i
                &&& st.1 == etfs[st.2].price
            },
    decreases i,
{
    if i > 0 {
        lemma_gen_steps_wf(etfs, b, i - 1);
        lemma_asset_steps_wf(etfs[i - 1], b, i - 1, 1);
        let s = gen_steps(etfs, b, i);
        let a = gen_steps(etfs, b, i - 1);
        let blk = asset_steps(etfs[i - 1], b, i - 1, 1);
        assert forall|x: int| 0 <= x < s.len() implies {
            let st = #[trigger] s[x];
            &&& 1 <= st.0
            &&& 1 <= st.1 <= b
            &&& 0 <= st.2 < i
            &&& st.1 == etfs[st.2].price
        } by {
            if x < a.len() {
                assert(s[x] == a[x]);
            } else {
                assert(s[x] == blk[x - a.len()]);
            }
        }
    }
}

/// The first `i` assets generate at most `i` steps per whole budget unit.
pub proof fn lemma_gen_steps_len(etfs: Seq<EtfItem>, b: int, i: int)
    requires
        0 <= i <= etfs.len(),
        0 <= b,
        forall|j: int| 0 <= j < i ==> 1 <= (#[trigger] etfs[j]).price,
    ensures
        0 <= gen_steps(etfs, b, i).len() <= i * b,
    decreases i,
{
    if i > 0 {
        lemma_gen_steps_len(etfs, b, i - 1);
        lemma_asset_steps_len(etfs[i - 1], b, i - 1, 1);
        assert((i - 1) * b + b == i * b) by (nonlinear_arith);
    } else {
        assert(i * b == 0) by (nonlinear_arith)
            requires
                i == 0,
        ;
    }
}

/// The values of all generated steps sum to at most the assets' total
/// starting squared error.
pub proof fn lemma_gen_steps_value_sum(etfs: Seq<EtfItem>, b: int, i: int)
    requires
        0 <= i <= etfs.len(),
        forall|j: int| 0 <= j < i ==> 1 <= (#[trigger] etfs[j]).price,
    ensures
        ({
            let vals = step_values(gen_steps(etfs, b, i));
            0 <= prefix_sum(vals, vals.len() as int) <= sum_initial_error(etfs, i)
        }),
    decreases i,
{
    if i > 0 {
        lemma_gen_steps_value_sum(etfs, b, i - 1);
        lemma_asset_steps_value_sum(etfs[i - 1], b, i - 1, 1);
        let a_vals = step_values(gen_steps(etfs, b, i - 1));
        let blk_vals = step_values(asset_steps(etfs[i - 1], b, i - 1, 1));
        assert(step_values(gen_steps(etfs, b, i)) =~= a_vals + blk_vals);
        lemma_prefix_sum_concat(a_vals, blk_vals, blk_vals.len() as int);
        lemma_prefix_sum_congruent(
            step_values(gen_steps(etfs, b, i)),
            a_vals + blk_vals,
            (a_vals + blk_vals).len() as int,
        );
    }
}

/// The inputs for which the generator's arithmetic fits in machine integers:
/// the price is positive, the holding non-negative, and every holding and
/// squared error reachable within the budget stays below `i64::MAX`.
pub open spec fn asset_arith_fits(e: EtfItem, b: int) -> bool {
    &&& 1 <= e.price
    &&& 0 <= e.cumulative
    &&& e.cumulative + 2 * b <= i64::MAX
    &&& (abs(e.target - e.cumulative) + b) * (abs(e.target - e.cumulative) + b) <= i64::MAX
}

/// Expands each asset into its candidate purchase steps: the `k`-th step of
/// an asset weighs one unit price and is worth the squared-error reduction of
/// buying a `k`-th unit, and an asset's steps end at the first unit that
/// would not fit the budget or not reduce the error.
pub fn generate_weights_and_values(budget: i64, etfs: &[EtfItem]) -> (items: Vec<KnapSackItem>)
    requires
        0 <= budget,
        forall|j: int| 0 <= j < etfs@.len() ==> asset_arith_fits(#[trigger] etfs@[j], budget as int),
    ensures
        items_view(items@) == gen_steps(etfs@, budget as int, etfs@.len() as int),
{
    let ghost b: int = budget as int;
    let mut items: Vec<KnapSackItem> = Vec::new();

    let mut ei: usize = 0;
    #[verifier::loop_isolation(false)]
    while ei < etfs.len()
        invariant
            ei <= etfs@.len(),
            items_view(items@) == gen_steps(etfs@, b, ei as int),
        decreases etfs@.len() - ei,
    {
        let etf: EtfItem = etfs[ei];
        let mut buy_quantity: i64 = 1;
        proof {
            lemma_square_bounds(
                etf.target - etf.cumulative,
                abs(etf.target - etf.cumulative) + b,
                i64::MAX as int,
            );
        }
        let mut last_error: i64 = (etf.target - etf.cumulative) * (etf.target - etf.cumulative);
        let ghost pre: Seq<KnapSackItem> = items@;

        assert(last_error == sq_error(etf, 0));

        loop
            invariant_except_break
                1 <= buy_quantity,
                buy_quantity == 1 || etf.price * (buy_quantity - 1) <= b,
                asset_arith_fits(etf, b),
                etf == etfs@[ei as int],
                ei < etfs@.len(),
                b == budget && 0 <= b,
                0 <= last_error,
                last_error == sq_error(etf, buy_quantity - 1),
                items_view(items@) + asset_steps(etf, b, ei as int, buy_quantity as int)
                    == items_view(pre) + asset_steps(etf, b, ei as int, 1),
            ensures
                items_view(items@) == items_view(pre) + asset_steps(etf, b, ei as int, 1),
            decreases b + etf.price - etf.price * buy_quantity,
        {
            proof {
                if buy_quantity >= 2 {
                    lemma_unit_step_bounds(etf.price as int, buy_quantity - 1);
                }
                lemma_unit_step_bounds(etf.price as int, buy_quantity as int);
            }
            let step_cost: i64 = etf.price * buy_quantity;
            if step_cost > budget {
                proof {
                    assert(asset_steps(etf, b, ei as int, buy_quantity as int) =~= Seq::<
                        (int, int, int),
                    >::empty());
                    assert(items_view(items@) + asset_steps(etf, b, ei as int, buy_quantity as int)
                        =~= items_view(items@));
                }
                break ;
            }
            proof {
                lemma_square_bounds(
                    etf.target - etf.cumulative - etf.price * buy_quantity,
                    abs(etf.target - etf.cumulative) + b,
                    i64::MAX as int,
                );
            }
            let amount: i64 = etf.cumulative + step_cost;
            let diff: i64 = etf.target - amount;
            let error: i64 = diff * diff;
            let value: i64 = last_error - error;
            assert(value == step_value(etf, buy_quantity as int));
            if value <= 0 {
                proof {
                    assert(asset_steps(etf, b, ei as int, buy_quantity as int) =~= Seq::<
                        (int, int, int),
                    >::empty());
                    assert(items_view(items@) + asset_steps(etf, b, ei as int, buy_quantity as int)
                        =~= items_view(items@));
                }
                break ;
            }
            let ghost before: Seq<KnapSackItem> = items@;
            items.push(KnapSackItem::new(value, etf.price, ei));
            proof {
                let k: int = buy_quantity as int;
                assert(items_view(items@) =~= items_view(before) + seq![
                    (value as int, etf.price as int, ei as int),
                ]);
                assert(items_view(items@) + asset_steps(etf, b, ei as int, k + 1) =~= items_view(
                    before,
                ) + asset_steps(etf, b, ei as int, k));
            }
            last_error = error;
            buy_quantity = buy_quantity + 1;
        }

        proof {
            assert(items_view(items@) =~= gen_steps(etfs@, b, ei + 1));
        }
        ei += 1;
    }
    items
}

/// The index-first-as-integer view of a reconstruction list.
pub open spec fn tree_indices(t: RcList<usize>) -> Seq<int> {
    index_seq(t.elems())
}

/// Solves 0/1 knapsack over `(weights, values)` pairs under capacity
/// `max_weight`: returns the best achievable total value together with the
/// indices of the selected items in increasing order.
pub fn knap_sack_rc_list(max_weight: i64, weights: &[i64], values: &[i64]) -> (r: (i64, Vec<usize>))
    requires
        0 <= max_weight,
        max_weight + 1 <= usize::MAX,
        weights@.len() == values@.len(),
        forall|j: int| 0 <= j < weights@.len() ==> 1 <= #[trigger] weights@[j] <= usize::MAX,
        forall|j: int| 0 <= j < values@.len() ==> 0 <= #[trigger] values@[j],
        prefix_sum(int_seq(values@), values@.len() as int) <= i64::MAX,
    ensures
        r.0 == best_value(
            int_seq(weights@),
            int_seq(values@),
            weights@.len() as int,
            max_weight as int,
        ),
        index_seq(r.1@) == best_selection(
            int_seq(weights@),
            int_seq(values@),
            weights@.len() as int,
            max_weight as int,
        ).reverse(),
{
    let ghost ws: Seq<int> = int_seq(weights@);
    let ghost vs: Seq<int> = int_seq(values@);
    let ghost n: int = weights@.len() as int;
    let ghost cap: int = max_weight as int;

    let max_w: usize = max_weight as usize;

    let mut dp: Vec<i64> = Vec::new();
    let mut trees: Vec<Rc<RcList<usize>>> = Vec::new();
    let mut j: usize = 0;
    #[verifier::loop_isolation(false)]
    while j <= max_w
        invariant
            j <= max_w + 1,
            dp@.len() == j,
            trees@.len() == j,
            forall|k: int| 0 <= k < j ==> #[trigger] dp@[k] == best_value(ws, vs, 0, k),
            forall|k: int|
                0 <= k < j ==> tree_indices(*#[trigger] trees@[k]) == best_selection(ws, vs, 0, k),
        decreases max_w + 1 - j,
    {
        dp.push(0);
        trees.push(Rc::new(RcList::Stop));
        proof {
            assert(tree_indices(RcList::Stop) =~= best_selection(ws, vs, 0, j as int));
        }
        j += 1;
    }

    let n_items: usize = weights.len();
    let mut i: usize = 0;
    #[verifier::loop_isolation(false)]
    while i < n_items
        invariant
            i <= n_items,
            dp@.len() == cap + 1,
            trees@.len() == cap + 1,
            forall|w2: int| 0 <= w2 <= cap ==> #[trigger] dp@[w2] == best_value(ws, vs, i as int, w2),
            forall|w2: int|
                0 <= w2 <= cap ==> tree_indices(*#[trigger] trees@[w2]) == best_selection(
                    ws,
                    vs,
                    i as int,
                    w2,
                ),
        decreases n_items - i,
    {
        let wt: usize = weights[i] as usize;
        let vali: i64 = values[i];
        let ghost wti: int = ws[i as int];
        assert(wt == wti);

        let mut w: usize = max_w + 1;
        #[verifier::loop_isolation(false)]
        while w > 0
            invariant
                w <= max_w + 1,
                dp@.len() == cap + 1,
                trees@.len() == cap + 1,
                forall|w2: int|
                    w <= w2 <= cap ==> #[trigger] dp@[w2] == best_value(ws, vs, i + 1, w2),
                forall|w2: int|
                    w <= w2 <= cap ==> tree_indices(*#[trigger] trees@[w2]) == best_selection(
                        ws,
                        vs,
                        i + 1,
                        w2,
                    ),
                forall|w2: int| 0 <= w2 < w ==> #[trigger] dp@[w2] == best_value(ws, vs, i as int, w2),
                forall|w2: int|
                    0 <= w2 < w ==> tree_indices(*#[trigger] trees@[w2]) == best_selection(
                        ws,
                        vs,
                        i as int,
                        w2,
                    ),
            decreases w,
        {
            w -= 1;
            if wt <= w {
                proof {
                    lemma_best_value_bounds(ws, vs, i as int, w - wti);
                    lemma_best_value_bounds(ws, vs, i as int, w as int);
                    lemma_prefix_sum_monotone(vs, i + 1, n);
                }
                let cand: i64 = dp[w - wt] + vali;
                if dp[w] < cand {
                    let tail: Rc<RcList<usize>> = trees[w - wt].clone();
                    let node: RcList<usize> = RcList::Node(i, tail);
                    proof {
                        assert(tree_indices(node) =~= seq![i as int] + best_selection(
                            ws,
                            vs,
                            i as int,
                            w - wti,
                        ));
                    }
                    trees[w] = Rc::new(node);
                    dp[w] = cand;
                }
            }
        }
        i += 1;
    }

    let result_value: i64 = dp[max_w];
    let rc_ref: &Rc<RcList<usize>> = &trees[max_w];
    let list: &RcList<usize> = &**rc_ref;
    let ghost full: Seq<usize> = list.elems();

    let mut collected: Vec<usize> = Vec::new();
    let mut it = list.iter();
    loop
        invariant_except_break
            collected@ + it.current_list.elems() == full,
        ensures
            collected@ == full,
        decreases it.current_list.elems().len(),
    {
        match it.next() {
            None => {
                proof {
                    assert(collected@ =~= collected@ + it.current_list.elems());
                }
                break ;
            },
            Some(t) => {
                collected.push(*t);
                proof {
                    assert(collected@ + it.current_list.elems() =~= full);
                }
            },
        }
    }

    let mut indices: Vec<usize> = Vec::new();
    let mut k: usize = collected.len();
    #[verifier::loop_isolation(false)]
    while k > 0
        invariant
            k <= collected@.len(),
            indices@.len() == collected@.len() - k,
            forall|m: int|
                0 <= m < indices@.len() ==> #[trigger] indices@[m] == collected@[collected@.len() - 1
                    - m],
        decreases k,
    {
        k -= 1;
        let x: usize = collected[k];
        indices.push(x);
    }

    proof {
        assert(index_seq(indices@) =~= best_selection(ws, vs, n, cap).reverse());
    }
    (result_value, indices)
}

} // verus!
