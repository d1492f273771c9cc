//! Turns per-asset allocation data into a concrete purchase plan: candidate
//! purchase steps are generated per asset and a knapsack solver picks the set
//! of steps that spends at most the budget with the greatest error reduction.

use vstd::prelude::*;

use crate::knap_sack::asset_arith_fits;
use crate::knap_sack::best_selection;
use crate::knap_sack::gen_steps;
use crate::knap_sack::generate_weights_and_values;
use crate::knap_sack::index_seq;
use crate::knap_sack::int_seq;
use crate::knap_sack::item_view;
use crate::knap_sack::items_view;
use crate::knap_sack::knap_sack_rc_list;
use crate::knap_sack::KnapSackItem;
use crate::knap_sack::lemma_best_selection_valid;
use crate::knap_sack::lemma_gen_steps_len;
use crate::knap_sack::lemma_gen_steps_value_sum;
use crate::knap_sack::lemma_gen_steps_wf;
use crate::knap_sack::lemma_picked_sum_remove;
use crate::knap_sack::lemma_picked_sum_reverse;
use crate::knap_sack::picked_sum;
use crate::knap_sack::selection_in_range;
use crate::knap_sack::step_values;
use crate::knap_sack::step_weights;
use crate::knap_sack::sum_initial_error;

verus! {

/// Per-asset allocation data: the amount already held, the target amount to
/// move toward, and the unit price, all in the same integer monetary unit.
#[derive(Debug, Copy, Clone, Eq, PartialEq, PartialOrd, Ord, Structural)]
pub struct EtfItem {
    pub cumulative: i64,
    pub target: i64,
    pub price: i64,
}

impl EtfItem {
    /// Bundles holding, target and price into one record.
    pub fn new(cumulative: i64, target: i64, price: i64) -> (r: EtfItem)
        ensures
            r == (EtfItem { cumulative, target, price }),
    {
        EtfItem { cumulative, target, price }
    }
}

/// The step indices the solver picks for the given assets and budget, in
/// increasing order.
pub open spec fn solver_selection(etfs: Seq<EtfItem>, b: int) -> Seq<int> {
    let items = gen_steps(etfs, b, etfs.len() as int);
    best_selection(step_weights(items), step_values(items), items.len() as int, b).reverse()
}

/// How many of the selected steps buy a unit of asset `j`.
pub open spec fn quantity_of(items: Seq<(int, int, int)>, sel: Seq<int>, j: int) -> int
    decreases sel.len(),
{
    if sel.len() == 0 {
        0
    } else {
        quantity_of(items, sel.drop_last(), j) + (if items[sel.last()].2 == j {
            1int
        } else {
            0int
        })
    }
}

/// How many whole units of asset `j` the solver decides to buy.
pub open spec fn planned_quantity(etfs: Seq<EtfItem>, b: int, j: int) -> int {
    quantity_of(gen_steps(etfs, b, etfs.len() as int), solver_selection(etfs, b), j)
}

/// A selection never buys more units than it has steps.
pub proof fn lemma_quantity_le_len(items: Seq<(int, int, int)>, sel: Seq<int>, j: int)
    ensures
        0 <= quantity_of(items, sel, j) <= sel.len(),
    decreases sel.len(),
{
    if sel.len() > 0 {
        lemma_quantity_le_len(items, sel.drop_last(), j);
    }
}

proof fn lemma_decreasing_selection_len(sel: Seq<int>, n: int)
    requires
        0 <= n,
        selection_in_range(sel, n),
        forall|k1: int, k2: int| 0 <= k1 < k2 < sel.len() ==> sel[k1] > sel[k2],
    ensures
        sel.len() <= n,
    decreases sel.len(),
{
    if sel.len() > 0 {
        let rest = sel.drop_first();
        assert forall|k: int| 0 <= k < rest.len() implies 0 <= #[trigger] rest[k] < sel[0] by {
            assert(rest[k] == sel[k + 1]);
        }
        lemma_decreasing_selection_len(rest, sel[0]);
    }
}

/// Solves the allocation problem: expands the assets into candidate steps,
/// picks the best affordable set of steps, and folds the selection back into
/// one whole-unit purchase quantity per asset, returned beside its asset.
pub fn solve_etf_problem(budget: i64, etfs: Vec<EtfItem>) -> (r: Vec<(EtfItem, i64)>)
    requires
        0 <= budget,
        budget + 1 <= usize::MAX,
        forall|j: int| 0 <= j < etfs@.len() ==> asset_arith_fits(#[trigger] etfs@[j], budget as int),
        sum_initial_error(etfs@, etfs@.len() as int) <= i64::MAX,
        etfs@.len() * budget <= i64::MAX,
    ensures
        r@.len() == etfs@.len(),
        forall|j: int| 0 <= j < etfs@.len() ==> (#[trigger] r@[j]).0 == etfs@[j],
        forall|j: int|
            0 <= j < etfs@.len() ==> (#[trigger] r@[j]).1 == planned_quantity(
                etfs@,
                budget as int,
                j,
            ),
{
    let ghost b: int = budget as int;
    let ghost n: int = etfs@.len() as int;

    let items: Vec<KnapSackItem> = generate_weights_and_values(budget, etfs.as_slice());
    let ghost items_v: Seq<(int, int, int)> = items_view(items@);
    let ghost nsteps: int = items_v.len() as int;
    proof {
        lemma_gen_steps_wf(etfs@, b, n);
        lemma_gen_steps_len(etfs@, b, n);
        lemma_gen_steps_value_sum(etfs@, b, n);
    }

    let mut weights: Vec<i64> = Vec::new();
    let mut values: Vec<i64> = Vec::new();
    let mut t: usize = 0;
    #[verifier::loop_isolation(false)]
    while t < items.len()
        invariant
            t <= items@.len(),
            weights@.len() == t,
            values@.len() == t,
            forall|x: int| 0 <= x < t ==> #[trigger] weights@[x] == items@[x].weight,
            forall|x: int| 0 <= x < t ==> #[trigger] values@[x] == items@[x].value,
        decreases items@.len() - t,
    {
        let it: KnapSackItem = items[t];
        weights.push(it.weight);
        values.push(it.value);
        t += 1;
    }
    proof {
        assert(int_seq(weights@) =~= step_weights(items_v));
        assert(int_seq(values@) =~= step_values(items_v));
        assert forall|x: int| 0 <= x < weights@.len() implies 1 <= #[trigger] weights@[x]
            <= usize::MAX by {
            assert(items_v[x] == item_view(items@[x]));
        }
        assert forall|x: int| 0 <= x < values@.len() implies 0 <= #[trigger] values@[x] by {
            assert(items_v[x] == item_view(items@[x]));
        }
    }

    let (_, item_indices) = knap_sack_rc_list(budget, weights.as_slice(), values.as_slice());
    let ghost sel: Seq<int> = index_seq(item_indices@);
    let ghost orig: Seq<int> = best_selection(
        step_weights(items_v),
        step_values(items_v),
        nsteps,
        b,
    );
    proof {
        lemma_best_selection_valid(step_weights(items_v), step_values(items_v), nsteps, b);
        lemma_decreasing_selection_len(orig, nsteps);
        assert(sel == orig.reverse());
        assert(sel == solver_selection(etfs@, b));
        assert forall|m: int| 0 <= m < sel.len() implies 0 <= #[trigger] sel[m] < nsteps by {
            assert(sel[m] == orig[sel.len() - 1 - m]);
        }
    }

    let mut buy_quantities: Vec<i64> = Vec::new();
    let mut j: usize = 0;
    #[verifier::loop_isolation(false)]
    while j < etfs.len()
        invariant
            j <= n,
            buy_quantities@.len() == j,
            forall|x: int| 0 <= x < j ==> #[trigger] buy_quantities@[x] == 0i64,
        decreases n - j,
    {
        buy_quantities.push(0);
        j += 1;
    }

    let mut t2: usize = 0;
    #[verifier::loop_isolation(false)]
    while t2 < item_indices.len()
        invariant
            t2 <= sel.len(),
            buy_quantities@.len() == n,
            forall|x: int|
                0 <= x < n ==> #[trigger] buy_quantities@[x] == quantity_of(
                    items_v,
                    sel.take(t2 as int),
                    x,
                ),
        decreases sel.len() - t2,
    {
        let idx: usize = item_indices[t2];
        proof {
            assert(sel[t2 as int] == item_indices@[t2 as int] as int);
        }
        let item: KnapSackItem = items[idx];
        proof {
            assert(items_v == gen_steps(etfs@, b, n));
            assert(items_v[sel[t2 as int]] == item_view(item));
            assert(gen_steps(etfs@, b, n)[sel[t2 as int]].2 == item.etf_index as int);
            assert(0 <= (item.etf_index as int) && (item.etf_index as int) < n);
            assert(sel.len() <= nsteps <= n * b);
            lemma_quantity_le_len(items_v, sel.take(t2 as int), item.etf_index as int);
        }
        let q: i64 = buy_quantities[item.etf_index];
        buy_quantities[item.etf_index] = q + 1;
        proof {
            assert(sel.take(t2 + 1).drop_last() =~= sel.take(t2 as int));
            assert(sel.take(t2 + 1).last() == sel[t2 as int]);
            assert(items_v[sel[t2 as int]].2 == item.etf_index as int);
            assert forall|x: int| 0 <= x < n implies #[trigger] buy_quantities@[x] == quantity_of(
                items_v,
                sel.take(t2 + 1),
                x,
            ) by {}
        }
        t2 += 1;
    }
    proof {
        assert(sel.take(sel.len() as int) =~= sel);
    }

    let mut result: Vec<(EtfItem, i64)> = Vec::new();
    let mut j3: usize = 0;
    #[verifier::loop_isolation(false)]
    while j3 < etfs.len()
        invariant
            j3 <= n,
            result@.len() == j3,
            forall|x: int|
                0 <= x < j3 ==> #[trigger] result@[x] == (etfs@[x], buy_quantities@[x]),
        decreases n - j3,
    {
        result.push((etfs[j3], buy_quantities[j3]));
        j3 += 1;
    }
    result
}

proof fn lemma_total_price_zero(etfs: Seq<EtfItem>, qs: Seq<int>, i: int)
    requires
        0 <= i,
        i <= etfs.len(),
        i <= qs.len(),
        forall|j: int| 0 <= j < qs.len() ==> #[trigger] qs[j] == 0,
    ensures
        total_price(etfs, qs, i) == 0,
    decreases i,
{
    if i > 0 {
        lemma_total_price_zero(etfs, qs, i - 1);
        assert(etfs[i - 1].price * 0 == 0) by (nonlinear_arith);
    }
}

proof fn lemma_total_price_bump(etfs: Seq<EtfItem>, qs1: Seq<int>, qs2: Seq<int>, j0: int, i: int)
    requires
        qs1.len() == qs2.len(),
        0 <= i,
        i <= etfs.len(),
        i <= qs1.len(),
        0 <= j0 < qs1.len(),
        qs2[j0] == qs1[j0] + 1,
        forall|j: int| 0 <= j < qs1.len() && j != j0 ==> #[trigger] qs1[j] == qs2[j],
    ensures
        total_price(etfs, qs2, i) == total_price(etfs, qs1, i) + (if j0 < i {
            etfs[j0].price as int
        } else {
            0int
        }),
    decreases i,
{
    if i > 0 {
        lemma_total_price_bump(etfs, qs1, qs2, j0, i - 1);
        if i - 1 == j0 {
            assert(etfs[j0].price * qs2[j0] == etfs[j0].price * qs1[j0] + etfs[j0].price)
                by (nonlinear_arith)
                requires
                    qs2[j0] == qs1[j0] + 1,
            ;
        }
    }
}

/// Law: grouping a selection's steps per asset loses no money — the cost of
/// the grouped quantities at each asset's price equals the sum of the
/// selected steps' weights.
pub proof fn lemma_selection_cost(
    etfs: Seq<EtfItem>,
    items: Seq<(int, int, int)>,
    sel: Seq<int>,
    qs: Seq<int>,
)
    requires
        qs.len() == etfs.len(),
        forall|k: int| 0 <= k < sel.len() ==> 0 <= #[trigger] sel[k] < items.len(),
        forall|x: int|
            0 <= x < items.len() ==> 0 <= (#[trigger] items[x]).2 < etfs.len() && items[x].1
                == etfs[items[x].2].price,
        forall|j: int| 0 <= j < etfs.len() ==> #[trigger] qs[j] == quantity_of(items, sel, j),
    ensures
        total_price(etfs, qs, etfs.len() as int) == picked_sum(step_weights(items), sel),
    decreases sel.len(),
{
    if sel.len() == 0 {
        lemma_total_price_zero(etfs, qs, etfs.len() as int);
    } else {
        let sel0 = sel.drop_last();
        let x = sel.last();
        let qs0 = Seq::new(qs.len(), |j: int| quantity_of(items, sel0, j));
        lemma_selection_cost(etfs, items, sel0, qs0);
        let j0 = items[x].2;
        assert forall|j: int| 0 <= j < qs.len() && j != j0 implies #[trigger] qs0[j] == qs[j] by {}
        lemma_total_price_bump(etfs, qs0, qs, j0, etfs.len() as int);
        assert(sel.remove(sel.len() - 1) =~= sel0);
        lemma_picked_sum_remove(step_weights(items), sel, sel.len() - 1);
        assert(step_weights(items)[x] == etfs[j0].price);
    }
}

/// Law: a plan never spends more than the budget. The cost of the planned
/// quantities at each asset's price is at most the solver's capacity.
pub proof fn lemma_plan_within_budget(etfs: Seq<EtfItem>, b: int, qs: Seq<int>)
    requires
        0 <= b,
        qs.len() == etfs.len(),
        forall|j: int| 0 <= j < etfs.len() ==> 1 <= (#[trigger] etfs[j]).price,
        forall|j: int| 0 <= j < etfs.len() ==> #[trigger] qs[j] == planned_quantity(etfs, b, j),
    ensures
        total_price(etfs, qs, etfs.len() as int) <= b,
{
    let n = etfs.len() as int;
    let items = gen_steps(etfs, b, n);
    let ws = step_weights(items);
    let vs = step_values(items);
    let orig = best_selection(ws, vs, items.len() as int, b);
    let sel = solver_selection(etfs, b);
    lemma_gen_steps_wf(etfs, b, n);
    lemma_best_selection_valid(ws, vs, items.len() as int, b);
    assert(sel == orig.reverse());
    lemma_picked_sum_reverse(ws, orig);
    assert forall|j: int| 0 <= j < etfs.len() implies #[trigger] qs[j] == quantity_of(
        items,
        sel,
        j,
    ) by {}
    assert forall|k: int| 0 <= k < sel.len() implies 0 <= #[trigger] sel[k] < items.len() by {
        assert(sel[k] == orig[orig.len() - 1 - k]);
    }
    lemma_selection_cost(etfs, items, sel, qs);
}

/// The cost of buying `qs[j]` units of each asset `j` among the first `i`.
pub open spec fn total_price(etfs: Seq<EtfItem>, qs: Seq<int>, i: int) -> int
    decreases i,
{
    if i <= 0 {
        0
    } else {
        total_price(etfs, qs, i - 1) + etfs[i - 1].price * qs[i - 1]
    }
}

proof fn lemma_total_price_monotone(etfs: Seq<EtfItem>, qs: Seq<int>, i: int, j: int)
    requires
        0 <= i <= j,
        j <= etfs.len(),
        j <= qs.len(),
        forall|x: int| 0 <= x < j ==> 1 <= (#[trigger] etfs[x]).price,
        forall|x: int| 0 <= x < j ==> 0 <= #[trigger] qs[x],
    ensures
        total_price(etfs, qs, i) <= total_price(etfs, qs, j),
    decreases j - i,
{
    if i < j {
        lemma_total_price_monotone(etfs, qs, i, j - 1);
        assert(0 <= etfs[j - 1].price * qs[j - 1]) by (nonlinear_arith)
            requires
                1 <= etfs[j - 1].price,
                0 <= qs[j - 1],
        ;
    }
}

/// The total price of a purchase plan: the sum over all assets of quantity
/// times unit price.
pub fn calc_total_price(etfs: &[EtfItem], buy_quantities: &[i64]) -> (r: i64)
    requires
        etfs@.len() == buy_quantities@.len(),
        forall|x: int| 0 <= x < etfs@.len() ==> 1 <= (#[trigger] etfs@[x]).price,
        forall|x: int| 0 <= x < buy_quantities@.len() ==> 0 <= #[trigger] buy_quantities@[x],
        total_price(etfs@, int_seq(buy_quantities@), etfs@.len() as int) <= i64::MAX,
    ensures
        r == total_price(etfs@, int_seq(buy_quantities@), etfs@.len() as int),
{
    let ghost qs: Seq<int> = int_seq(buy_quantities@);
    let ghost n: int = etfs@.len() as int;
    let mut acc: i64 = 0;
    let mut i: usize = 0;
    #[verifier::loop_isolation(false)]
    while i < etfs.len()
        invariant
            i <= n,
            acc == total_price(etfs@, qs, i as int),
        decreases n - i,
    {
        proof {
            lemma_total_price_monotone(etfs@, qs, 0, i as int);
            lemma_total_price_monotone(etfs@, qs, i + 1, n);
            assert(0 <= etfs@[i as int].price * qs[i as int]) by (nonlinear_arith)
                requires
                    1 <= etfs@[i as int].price,
                    0 <= qs[i as int],
            ;
        }
        acc = acc + etfs[i].price * buy_quantities[i];
        i += 1;
    }
    acc
}

} // verus!
