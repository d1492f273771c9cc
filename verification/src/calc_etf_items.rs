//! Derives a per-asset target amount from target weights, current holdings
//! and the budget, in exact integer arithmetic.
//!
//! With a positive weight total `W`, the post-purchase portfolio total
//! `T = sum of holdings + budget` is split in proportion to the weights;
//! each asset's shortfall below that ideal share (clamped at zero) then
//! decides its slice of the budget. With no usable weights, or no asset
//! short of its ideal, the budget splits evenly.

use vstd::arithmetic::div_mod::lemma_div_is_ordered;
use vstd::arithmetic::div_mod::lemma_div_multiples_vanish;
use vstd::arithmetic::div_mod::lemma_div_multiples_vanish_quotient;
use vstd::arithmetic::div_mod::lemma_div_nonincreasing;
use vstd::arithmetic::div_mod::lemma_div_pos_is_pos;
use vstd::arithmetic::div_mod::lemma_fundamental_div_mod;
use vstd::arithmetic::div_mod::lemma_mod_bound;
use vstd::math::max;
use vstd::prelude::*;

use crate::knap_sack::int_seq;
use crate::knap_sack::lemma_prefix_sum_element;
use crate::knap_sack::lemma_prefix_sum_monotone;
use crate::knap_sack::prefix_sum;
use crate::knap_sack::sq_error;
use crate::knap_sack::sum_initial_error;
use crate::planner::Settings;
use crate::strategy::EtfItem;

verus! {

/// The most assets one planning round handles.
pub const MAX_ASSETS: usize = 10_000;

/// The largest holding, budget or price the deriver's arithmetic admits, in
/// the smallest monetary unit.
pub const MAX_AMOUNT: i64 = 1_000_000_000_000;

/// The largest magnitude of a target-weight integer.
pub const MAX_PROPORTION: i64 = 1_000_000_000;

/// The shortfall numerators: how far each asset sits below its ideal share
/// of the post-purchase total, scaled by the weight total and clamped at
/// zero (`max(w_i * T - a_i * W, 0)`).
pub open spec fn shortfalls(props: Seq<int>, amounts: Seq<int>, budget: int) -> Seq<int> {
    let n = amounts.len() as int;
    let w_total = prefix_sum(props, n);
    let t_total = prefix_sum(amounts, n) + budget;
    Seq::new(amounts.len(), |i: int| max(props[i] * t_total - amounts[i] * w_total, 0))
}

/// The derived target amount for asset `i`: its holding plus its slice of
/// the budget, proportional to its shortfall below the ideal split, with an
/// even split when the weights or the shortfalls are degenerate. Divisions
/// round down.
pub open spec fn target_spec(props: Seq<int>, amounts: Seq<int>, budget: int, i: int) -> int {
    let n = amounts.len() as int;
    let w_total = prefix_sum(props, n);
    let s = shortfalls(props, amounts, budget);
    let s_total = prefix_sum(s, n);
    if w_total <= 0 {
        amounts[i] + budget / n
    } else if s_total == 0 {
        amounts[i] + budget / n
    } else {
        amounts[i] + (budget * s[i]) / s_total
    }
}

proof fn lemma_mul_bound(x: int, y: int, xb: int, yb: int)
    requires
        -xb <= x <= xb,
        -yb <= y <= yb,
        0 <= xb,
        0 <= yb,
    ensures
        -(xb * yb) <= x * y <= xb * yb,
{
    assert(-(xb * yb) <= x * y <= xb * yb) by (nonlinear_arith)
        requires
            -xb <= x <= xb,
            -yb <= y <= yb,
            0 <= xb,
            0 <= yb,
    ;
}

proof fn lemma_div_superadd(x: int, y: int, d: int)
    requires
        0 <= x,
        0 <= y,
        0 < d,
    ensures
        x / d + y / d <= (x + y) / d,
{
    lemma_fundamental_div_mod(x, d);
    lemma_fundamental_div_mod(y, d);
    lemma_fundamental_div_mod(x + y, d);
    lemma_mod_bound(x, d);
    lemma_mod_bound(y, d);
    lemma_mod_bound(x + y, d);
    let gap = (x + y) / d - x / d - y / d;
    assert(d * gap == x % d + y % d - (x + y) % d) by (nonlinear_arith)
        requires
            x == d * (x / d) + (x % d),
            y == d * (y / d) + (y % d),
            x + y == d * ((x + y) / d) + ((x + y) % d),
            gap == (x + y) / d - x / d - y / d,
    ;
    assert(gap >= 0) by (nonlinear_arith)
        requires
            d * gap > -d,
            d > 0,
    ;
}

proof fn lemma_prefix_sum_nonpos(xs: Seq<int>, i: int)
    requires
        0 <= i <= xs.len(),
        forall|k: int| 0 <= k < i ==> #[trigger] xs[k] <= 0,
    ensures
        prefix_sum(xs, i) <= 0,
    decreases i,
{
    if i > 0 {
        lemma_prefix_sum_nonpos(xs, i - 1);
    }
}

proof fn lemma_prefix_sum_scale(xs: Seq<int>, c: int, scaled: Seq<int>, i: int)
    requires
        0 <= i <= xs.len(),
        scaled.len() == xs.len(),
        forall|j: int| 0 <= j < xs.len() ==> #[trigger] scaled[j] == xs[j] * c,
    ensures
        prefix_sum(scaled, i) == prefix_sum(xs, i) * c,
    decreases i,
{
    if i > 0 {
        lemma_prefix_sum_scale(xs, c, scaled, i - 1);
        assert(prefix_sum(xs, i) * c == prefix_sum(xs, i - 1) * c + xs[i - 1] * c)
            by (nonlinear_arith)
            requires
                prefix_sum(xs, i) == prefix_sum(xs, i - 1) + xs[i - 1],
        ;
    } else {
        assert(prefix_sum(xs, 0) * c == 0) by (nonlinear_arith)
            requires
                prefix_sum(xs, 0) == 0,
        ;
    }
}

/// Law: with no usable target weights (all zero or negative), the budget
/// splits evenly: every target is its asset's holding plus `budget / n`
/// rounded down — exactly even when `n` divides the budget.
pub proof fn lemma_no_weights_even_split(props: Seq<int>, amounts: Seq<int>, budget: int, i: int)
    requires
        props.len() == amounts.len(),
        1 <= amounts.len(),
        0 <= i < amounts.len(),
        forall|j: int| 0 <= j < props.len() ==> #[trigger] props[j] <= 0,
    ensures
        target_spec(props, amounts, budget, i) == amounts[i] + budget / (amounts.len() as int),
        budget % (amounts.len() as int) == 0 ==> (budget / (amounts.len() as int)) * (
        amounts.len() as int) == budget,
{
    let n = amounts.len() as int;
    lemma_prefix_sum_nonpos(props, n);
    if budget % n == 0 {
        lemma_fundamental_div_mod(budget, n);
    }
}

/// Law: when every asset already holds exactly its ideal share of the
/// current portfolio (`a_j * W == w_j * A` for all `j`, with non-negative
/// weights summing to `W > 0`), the budget itself is split in proportion to
/// the weights: each target is the holding plus `budget * w_i / W` rounded
/// down, undistorted by the shortfall reallocation.
pub proof fn lemma_balanced_portfolio_split(props: Seq<int>, amounts: Seq<int>, budget: int, i: int)
    requires
        props.len() == amounts.len(),
        1 <= amounts.len(),
        0 <= i < amounts.len(),
        0 <= budget,
        forall|j: int| 0 <= j < props.len() ==> #[trigger] props[j] >= 0,
        prefix_sum(props, props.len() as int) > 0,
        forall|j: int|
            0 <= j < amounts.len() ==> #[trigger] amounts[j] * prefix_sum(
                props,
                props.len() as int,
            ) == props[j] * prefix_sum(amounts, amounts.len() as int),
    ensures
        target_spec(props, amounts, budget, i) == amounts[i] + (budget * props[i]) / prefix_sum(
            props,
            props.len() as int,
        ),
{
    let n = amounts.len() as int;
    let w_total = prefix_sum(props, n);
    let a_total = prefix_sum(amounts, n);
    let s = shortfalls(props, amounts, budget);
    let s_total = prefix_sum(s, n);

    assert forall|j: int| 0 <= j < n implies #[trigger] s[j] == props[j] * budget by {
        assert(props[j] * (a_total + budget) == props[j] * a_total + props[j] * budget)
            by (nonlinear_arith);
        assert(props[j] * budget >= 0) by (nonlinear_arith)
            requires
                props[j] >= 0,
                budget >= 0,
        ;
    }
    lemma_prefix_sum_scale(props, budget, s, n);
    assert(s_total == w_total * budget);

    if budget == 0 {
        assert(w_total * 0 == 0) by (nonlinear_arith);
        lemma_div_pos_is_pos(0, n);
        lemma_div_nonincreasing(0, n);
        assert(0int / n == 0);
        assert(budget * props[i] == 0) by (nonlinear_arith)
            requires
                budget == 0,
        ;
        assert(0int / w_total == 0);
    } else {
        assert(s_total > 0) by (nonlinear_arith)
            requires
                s_total == w_total * budget,
                w_total > 0,
                budget > 0,
        ;
        assert(s[i] == props[i] * budget);
        lemma_div_multiples_vanish_quotient(budget, props[i] * budget, w_total);
        assert(budget * (props[i] * budget) == budget * s[i]);
        assert(budget * w_total == w_total * budget);
        assert((props[i] * budget) / w_total == (budget * props[i]) / w_total);
    }
}

/// Bounds each target above its holding and below holding plus budget.
pub proof fn lemma_target_in_range(props: Seq<int>, amounts: Seq<int>, budget: int, i: int)
    requires
        props.len() == amounts.len(),
        1 <= amounts.len(),
        0 <= i < amounts.len(),
        0 <= budget,
    ensures
        0 <= target_spec(props, amounts, budget, i) - amounts[i] <= budget,
{
    let n = amounts.len() as int;
    let w_total = prefix_sum(props, n);
    let s = shortfalls(props, amounts, budget);
    let s_total = prefix_sum(s, n);
    assert(forall|k: int| 0 <= k < n ==> #[trigger] s[k] >= 0);
    if w_total <= 0 || s_total == 0 {
        lemma_div_pos_is_pos(budget, n);
        lemma_div_nonincreasing(budget, n);
    } else {
        lemma_prefix_sum_element(s, i, n);
        lemma_mul_bound(budget, s[i], budget, s_total);
        assert(budget * s[i] <= budget * s_total) by (nonlinear_arith)
            requires
                0 <= budget,
                0 <= s[i] <= s_total,
        ;
        assert(0 <= budget * s[i]) by (nonlinear_arith)
            requires
                0 <= budget,
                0 <= s[i],
        ;
        lemma_div_pos_is_pos(budget * s[i], s_total);
        lemma_div_is_ordered(budget * s[i], budget * s_total, s_total);
        lemma_div_multiples_vanish(budget, s_total);
        assert(budget * s_total == s_total * budget);
    }
}

/// The targets hand out no more than the whole budget: the per-asset target
/// increases sum to at most `budget`.
pub proof fn lemma_target_increase_sum(
    props: Seq<int>,
    amounts: Seq<int>,
    budget: int,
    incr: Seq<int>,
    i: int,
)
    requires
        props.len() == amounts.len(),
        1 <= amounts.len(),
        0 <= budget,
        incr.len() == amounts.len(),
        forall|j: int| 0 <= j < amounts.len() ==> #[trigger] incr[j] == target_spec(
            props,
            amounts,
            budget,
            j,
        ) - amounts[j],
        0 <= i <= amounts.len(),
    ensures
        prefix_sum(incr, i) <= budget,
    decreases i,
{
    let n = amounts.len() as int;
    let w_total = prefix_sum(props, n);
    let s = shortfalls(props, amounts, budget);
    let s_total = prefix_sum(s, n);
    assert(forall|k: int| 0 <= k < n ==> #[trigger] s[k] >= 0);
    if w_total <= 0 || s_total == 0 {
        lemma_even_split_sum(amounts, budget, incr, i);
    } else {
        lemma_prefix_sum_monotone(s, 0, n);
        lemma_proportional_split_sum(props, amounts, budget, incr, i);
        lemma_prefix_sum_monotone(s, i, n);
        assert(budget * prefix_sum(s, i) <= budget * s_total) by (nonlinear_arith)
            requires
                0 <= budget,
                prefix_sum(s, i) <= s_total,
        ;
        lemma_div_is_ordered(budget * prefix_sum(s, i), budget * s_total, s_total);
        lemma_div_multiples_vanish(budget, s_total);
        assert(budget * s_total == s_total * budget);
    }
}

proof fn lemma_even_split_sum(amounts: Seq<int>, budget: int, incr: Seq<int>, i: int)
    requires
        1 <= amounts.len(),
        0 <= budget,
        incr.len() == amounts.len(),
        forall|j: int| 0 <= j < amounts.len() ==> #[trigger] incr[j] == budget / (
        amounts.len() as int),
        0 <= i <= amounts.len(),
    ensures
        prefix_sum(incr, i) == i * (budget / (amounts.len() as int)),
        prefix_sum(incr, i) <= budget,
    decreases i,
{
    let n = amounts.len() as int;
    let per = budget / n;
    lemma_div_pos_is_pos(budget, n);
    if i > 0 {
        lemma_even_split_sum(amounts, budget, incr, i - 1);
        assert(i * per == (i - 1) * per + per) by (nonlinear_arith);
    }
    lemma_fundamental_div_mod(budget, n);
    lemma_mod_bound(budget, n);
    assert(i * per <= n * per) by (nonlinear_arith)
        requires
            0 <= per,
            i <= n,
    ;
    assert(n * per == budget - budget % n);
}

proof fn lemma_proportional_split_sum(
    props: Seq<int>,
    amounts: Seq<int>,
    budget: int,
    incr: Seq<int>,
    i: int,
)
    requires
        props.len() == amounts.len(),
        1 <= amounts.len(),
        0 <= budget,
        incr.len() == amounts.len(),
        prefix_sum(props, amounts.len() as int) > 0,
        prefix_sum(shortfalls(props, amounts, budget), amounts.len() as int) != 0,
        forall|j: int| 0 <= j < amounts.len() ==> #[trigger] incr[j] == target_spec(
            props,
            amounts,
            budget,
            j,
        ) - amounts[j],
        0 <= i <= amounts.len(),
    ensures
        prefix_sum(incr, i) <= (budget * prefix_sum(shortfalls(props, amounts, budget), i))
            / prefix_sum(shortfalls(props, amounts, budget), amounts.len() as int),
        0 <= prefix_sum(incr, i),
    decreases i,
{
    let n = amounts.len() as int;
    let s = shortfalls(props, amounts, budget);
    let s_total = prefix_sum(s, n);
    assert(forall|k: int| 0 <= k < n ==> #[trigger] s[k] >= 0);
    lemma_prefix_sum_monotone(s, 0, n);
    if i == 0 {
        lemma_div_pos_is_pos(budget * prefix_sum(s, 0), s_total);
        assert(0 <= budget * prefix_sum(s, 0)) by (nonlinear_arith)
            requires
                0 <= budget,
                prefix_sum(s, 0) == 0,
        ;
    } else {
        lemma_proportional_split_sum(props, amounts, budget, incr, i - 1);
        lemma_target_in_range(props, amounts, budget, i - 1);
        assert(incr[i - 1] == (budget * s[i - 1]) / s_total);
        lemma_prefix_sum_monotone(s, 0, i - 1);
        assert(0 <= budget * prefix_sum(s, i - 1)) by (nonlinear_arith)
            requires
                0 <= budget,
                0 <= prefix_sum(s, i - 1),
        ;
        assert(0 <= budget * s[i - 1]) by (nonlinear_arith)
            requires
                0 <= budget,
                0 <= s[i - 1],
        ;
        lemma_div_superadd(budget * prefix_sum(s, i - 1), budget * s[i - 1], s_total);
        assert(budget * prefix_sum(s, i - 1) + budget * s[i - 1] == budget * prefix_sum(s, i))
            by (nonlinear_arith)
            requires
                prefix_sum(s, i) == prefix_sum(s, i - 1) + s[i - 1],
        ;
        lemma_div_pos_is_pos(budget * s[i - 1], s_total);
    }
}

/// The total starting squared error of a step list whose per-asset gaps are
/// `incr` is at most the square of the summed gaps.
pub proof fn lemma_initial_error_bound(items: Seq<EtfItem>, incr: Seq<int>, i: int)
    requires
        incr.len() == items.len(),
        0 <= i <= items.len(),
        forall|j: int|
            0 <= j < items.len() ==> (#[trigger] items[j]).target - items[j].cumulative == incr[j],
        forall|j: int| 0 <= j < items.len() ==> 0 <= #[trigger] incr[j],
    ensures
        0 <= sum_initial_error(items, i) <= prefix_sum(incr, i) * prefix_sum(incr, i),
    decreases i,
{
    if i > 0 {
        lemma_initial_error_bound(items, incr, i - 1);
        lemma_prefix_sum_monotone(incr, 0, i - 1);
        let e = items[i - 1];
        assert(sq_error(e, 0) == incr[i - 1] * incr[i - 1]);
        assert(prefix_sum(incr, i - 1) * prefix_sum(incr, i - 1) + incr[i - 1] * incr[i - 1]
            <= prefix_sum(incr, i) * prefix_sum(incr, i)) by (nonlinear_arith)
            requires
                0 <= prefix_sum(incr, i - 1),
                0 <= incr[i - 1],
                prefix_sum(incr, i) == prefix_sum(incr, i - 1) + incr[i - 1],
        ;
    }
}

/// Derives every asset's target amount: each asset gets its holding plus a
/// budget slice proportional to how far it sits below its ideal share; with
/// no usable weights, or no asset short of its ideal, the budget splits
/// evenly.
pub fn calc_targets(ideal_proportions: Vec<i64>, amounts: &[i64], budget: i64) -> (r: Vec<i64>)
    requires
        ideal_proportions@.len() == amounts@.len(),
        amounts@.len() <= MAX_ASSETS,
        0 <= budget <= MAX_AMOUNT,
        forall|j: int| 0 <= j < amounts@.len() ==> 0 <= #[trigger] amounts@[j] <= MAX_AMOUNT,
        forall|j: int|
            0 <= j < ideal_proportions@.len() ==> -MAX_PROPORTION <= #[trigger] ideal_proportions@[j]
                <= MAX_PROPORTION,
    ensures
        r@.len() == amounts@.len(),
        forall|j: int|
            0 <= j < r@.len() ==> #[trigger] r@[j] == target_spec(
                int_seq(ideal_proportions@),
                int_seq(amounts@),
                budget as int,
                j,
            ),
{
    let ghost props_g: Seq<int> = int_seq(ideal_proportions@);
    let ghost amounts_g: Seq<int> = int_seq(amounts@);
    let ghost b: int = budget as int;
    let n: usize = amounts.len();
    let ghost ng: int = n as int;

    let mut result: Vec<i64> = Vec::new();
    if n == 0 {
        return result;
    }

    let mut w_total: i64 = 0;
    let mut i: usize = 0;
    #[verifier::loop_isolation(false)]
    while i < n
        invariant
            i <= n,
            w_total == prefix_sum(props_g, i as int),
            -(i as int) * 1_000_000_000 <= w_total <= (i as int) * 1_000_000_000,
        decreases n - i,
    {
        w_total = w_total + ideal_proportions[i];
        i += 1;
    }

    let mut a_total: i64 = 0;
    i = 0;
    #[verifier::loop_isolation(false)]
    while i < n
        invariant
            i <= n,
            a_total == prefix_sum(amounts_g, i as int),
            0 <= a_total <= (i as int) * 1_000_000_000_000,
        decreases n - i,
    {
        a_total = a_total + amounts[i];
        i += 1;
    }

    let t_total: i64 = a_total + budget;
    let ghost sf_g: Seq<int> = shortfalls(props_g, amounts_g, b);

    let mut shortfall_list: Vec<i128> = Vec::new();
    i = 0;
    #[verifier::loop_isolation(false)]
    while i < n
        invariant
            i <= n,
            shortfall_list@.len() == i,
            forall|x: int| 0 <= x < i ==> #[trigger] shortfall_list@[x] as int == sf_g[x],
            forall|x: int|
                0 <= x < i ==> 0 <= #[trigger] shortfall_list@[x]
                    <= 30_000_000_000_000_000_000_000_000i128,
        decreases n - i,
    {
        proof {
            lemma_mul_bound(
                props_g[i as int],
                t_total as int,
                1_000_000_000,
                11_000_000_000_000_000,
            );
            lemma_mul_bound(
                amounts_g[i as int],
                w_total as int,
                1_000_000_000_000,
                10_000_000_000_000,
            );
        }
        let prod1: i128 = (ideal_proportions[i] as i128) * (t_total as i128);
        let prod2: i128 = (amounts[i] as i128) * (w_total as i128);
        let d: i128 = prod1 - prod2;
        let s_i: i128 = if d > 0 {
            d
        } else {
            0
        };
        shortfall_list.push(s_i);
        i += 1;
    }

    let mut s_total: i128 = 0;
    i = 0;
    #[verifier::loop_isolation(false)]
    while i < n
        invariant
            i <= n,
            s_total == prefix_sum(sf_g, i as int),
            0 <= s_total <= (i as int) * 30_000_000_000_000_000_000_000_000,
        decreases n - i,
    {
        s_total = s_total + shortfall_list[i];
        i += 1;
    }

    if w_total <= 0 || s_total == 0 {
        let per: i64 = budget / (n as i64);
        proof {
            lemma_div_pos_is_pos(b, ng);
            lemma_div_nonincreasing(b, ng);
        }
        i = 0;
        #[verifier::loop_isolation(false)]
        while i < n
            invariant
                i <= n,
                result@.len() == i,
                forall|x: int|
                    0 <= x < i ==> #[trigger] result@[x] == target_spec(props_g, amounts_g, b, x),
            decreases n - i,
        {
            result.push(amounts[i] + per);
            i += 1;
        }
    } else {
        i = 0;
        #[verifier::loop_isolation(false)]
        while i < n
            invariant
                i <= n,
                result@.len() == i,
                forall|x: int|
                    0 <= x < i ==> #[trigger] result@[x] == target_spec(props_g, amounts_g, b, x),
            decreases n - i,
        {
            proof {
                assert(shortfall_list@[i as int] as int == sf_g[i as int]);
                lemma_prefix_sum_element(sf_g, i as int, ng);
                lemma_mul_bound(
                    b,
                    sf_g[i as int],
                    1_000_000_000_000,
                    30_000_000_000_000_000_000_000_000,
                );
                assert(b * sf_g[i as int] <= b * (s_total as int)) by (nonlinear_arith)
                    requires
                        0 <= b,
                        0 <= sf_g[i as int] <= s_total as int,
                ;
                assert(0 <= b * sf_g[i as int]) by (nonlinear_arith)
                    requires
                        0 <= b,
                        0 <= sf_g[i as int],
                ;
                lemma_div_pos_is_pos(b * sf_g[i as int], s_total as int);
                lemma_div_is_ordered(b * sf_g[i as int], b * (s_total as int), s_total as int);
                lemma_div_multiples_vanish(b, s_total as int);
                assert(b * (s_total as int) == (s_total as int) * b);
            }
            let num: i128 = (budget as i128) * shortfall_list[i];
            let q: i64 = (num / s_total) as i64;
            result.push(amounts[i] + q);
            i += 1;
        }
    }
    result
}

/// The target weights of the tracked assets, as mathematical integers.
pub open spec fn proportions_of(settings: Settings) -> Seq<int> {
    settings.etf_settings@.map_values(|e: crate::planner::EtfSetting| e.ideal_proportion as int)
}

/// The current holdings of the tracked assets, as mathematical integers.
pub open spec fn amounts_of(settings: Settings) -> Seq<int> {
    settings.etf_settings@.map_values(|e: crate::planner::EtfSetting| e.cumulative as int)
}

/// The allocation items one planning round feeds the solver: holding,
/// derived target, and unit price, one per asset.
pub open spec fn etf_items_spec(settings: Settings, prices: Seq<i64>) -> Seq<EtfItem> {
    Seq::new(
        settings.etf_settings@.len(),
        |j: int|
            EtfItem {
                cumulative: settings.etf_settings@[j].cumulative,
                target: target_spec(
                    proportions_of(settings),
                    amounts_of(settings),
                    settings.budget as int,
                    j,
                ) as i64,
                price: prices[j],
            },
    )
}

/// Builds the solver's allocation items from the settings and live prices:
/// each asset keeps its holding and price and gets its derived target.
pub fn calc_etf_items(settings: &Settings, prices: &[i64]) -> (r: Vec<EtfItem>)
    requires
        settings.etf_settings@.len() == prices@.len(),
        settings.etf_settings@.len() <= MAX_ASSETS,
        0 <= settings.budget <= MAX_AMOUNT,
        forall|j: int|
            0 <= j < settings.etf_settings@.len() ==> 0 <= (#[trigger] settings.etf_settings@[j]).cumulative
                <= MAX_AMOUNT,
        forall|j: int|
            0 <= j < settings.etf_settings@.len() ==> -MAX_PROPORTION <= (
            #[trigger] settings.etf_settings@[j]).ideal_proportion <= MAX_PROPORTION,
    ensures
        r@.len() == settings.etf_settings@.len(),
        r@ == etf_items_spec(*settings, prices@),
        forall|j: int|
            0 <= j < r@.len() ==> 0 <= (#[trigger] r@[j]).target - r@[j].cumulative
                <= settings.budget,
{
    let n: usize = prices.len();
    let ghost props_g: Seq<int> = proportions_of(*settings);
    let ghost amounts_g: Seq<int> = amounts_of(*settings);
    let ghost b: int = settings.budget as int;

    let mut props: Vec<i64> = Vec::new();
    let mut amounts: Vec<i64> = Vec::new();
    let mut i: usize = 0;
    #[verifier::loop_isolation(false)]
    while i < n
        invariant
            i <= n,
            props@.len() == i,
            amounts@.len() == i,
            forall|x: int|
                0 <= x < i ==> #[trigger] props@[x] == settings.etf_settings@[x].ideal_proportion,
            forall|x: int|
                0 <= x < i ==> #[trigger] amounts@[x] == settings.etf_settings@[x].cumulative,
        decreases n - i,
    {
        let setting_ref = &settings.etf_settings[i];
        props.push(setting_ref.ideal_proportion);
        amounts.push(setting_ref.cumulative);
        i += 1;
    }
    proof {
        assert(int_seq(props@) =~= props_g);
        assert(int_seq(amounts@) =~= amounts_g);
    }

    let targets: Vec<i64> = calc_targets(props, amounts.as_slice(), settings.budget);

    let mut items: Vec<EtfItem> = Vec::new();
    i = 0;
    #[verifier::loop_isolation(false)]
    while i < n
        invariant
            i <= n,
            items@.len() == i,
            targets@.len() == n,
            forall|x: int| 0 <= x < i ==> #[trigger] items@[x] == etf_items_spec(
                *settings,
                prices@,
            )[x],
        decreases n - i,
    {
        proof {
            lemma_target_in_range(props_g, amounts_g, b, i as int);
        }
        let item = EtfItem::new(amounts[i], targets[i], prices[i]);
        items.push(item);
        i += 1;
    }
    proof {
        assert(items@ =~= etf_items_spec(*settings, prices@));
        assert forall|j: int| 0 <= j < items@.len() implies 0 <= (#[trigger] items@[j]).target
            - items@[j].cumulative <= settings.budget by {
            lemma_target_in_range(props_g, amounts_g, b, j);
        }
    }
    items
}

} // verus!
