//! The planning layer: portfolio settings come in, concrete buy orders come
//! out. Targets are derived from the settings, expanded into candidate
//! steps, solved under the budget, and zipped back with the asset identities.

use vstd::prelude::*;

use crate::calc_etf_items::calc_etf_items;
use crate::calc_etf_items::etf_items_spec;
use crate::calc_etf_items::lemma_initial_error_bound;
use crate::calc_etf_items::lemma_target_in_range;
use crate::calc_etf_items::lemma_target_increase_sum;
use crate::calc_etf_items::target_spec;
use crate::calc_etf_items::amounts_of;
use crate::calc_etf_items::proportions_of;
use crate::calc_etf_items::MAX_AMOUNT;
use crate::calc_etf_items::MAX_ASSETS;
use crate::calc_etf_items::MAX_PROPORTION;
use crate::knap_sack::int_seq;
use crate::knap_sack::prefix_sum;
use crate::strategy::planned_quantity;
use crate::strategy::solve_etf_problem;
use crate::strategy::EtfItem;

verus! {

/// The largest pipeline budget: keeps every squared allocation error the
/// planner can reach within a machine integer.
pub const MAX_BUDGET: i64 = 1_500_000_000;

/// A stable asset identifier.
pub type EtfId = String;

/// One concrete buy order: which asset, how many whole units, at what unit
/// price.
#[derive(Debug, Clone, Eq, PartialEq, Hash)]
pub struct Investment {
    pub etf_id: EtfId,
    pub name: String,
    pub quantity: i64,
    pub price: i64,
}

impl Investment {
    /// Bundles the fields of one buy order.
    pub fn new(etf_id: EtfId, name: String, quantity: i64, price: i64) -> (r: Investment)
        ensures
            r == (Investment { etf_id, name, quantity, price }),
    {
        Investment { etf_id, name, quantity, price }
    }
}

/// One tracked asset: identity, desired portfolio weight, and how much of it
/// is already held. The weight is an integer in an arbitrary fixed scale;
/// only the ratios between weights matter, and weights that sum to zero or
/// less mean "no preference".
#[derive(Debug, Clone, Eq, PartialEq)]
pub struct EtfSetting {
    pub id: EtfId,
    pub isin: String,
    pub name: String,
    pub ideal_proportion: i64,
    pub cumulative: i64,
}

impl EtfSetting {
    /// Bundles the fields of one tracked asset.
    pub fn new(id: EtfId, isin: String, name: String, ideal_proportion: i64, cumulative: i64) -> (r:
        EtfSetting)
        ensures
            r == (EtfSetting { id, isin, name, ideal_proportion, cumulative }),
    {
        EtfSetting { id, isin, name, ideal_proportion, cumulative }
    }
}

/// The whole portfolio state one planning round works from: the cash budget
/// and the tracked assets, in a fixed order matched by the price list.
#[derive(Debug, Clone, Eq, PartialEq)]
pub struct Settings {
    pub budget: i64,
    pub etf_settings: Vec<EtfSetting>,
}

impl Settings {
    /// Bundles a budget with the tracked assets.
    pub fn new(budget: i64, etf_settings: Vec<EtfSetting>) -> (r: Settings)
        ensures
            r == (Settings { budget, etf_settings }),
    {
        Settings { budget, etf_settings }
    }
}

/// What the planner promises of its output `r`: one order per asset, in
/// order, carrying the asset's identity and price, whose quantity is the
/// solver's planned quantity for the derived allocation items.
pub open spec fn investment_plan_matches(
    settings: Settings,
    prices: Seq<i64>,
    r: Seq<Investment>,
) -> bool {
    &&& r.len() == settings.etf_settings@.len()
    &&& forall|j: int|
        0 <= j < r.len() ==> {
            let order = #[trigger] r[j];
            &&& order.etf_id == settings.etf_settings@[j].id
            &&& order.name == settings.etf_settings@[j].name
            &&& order.price == prices[j]
            &&& order.quantity == planned_quantity(
                etf_items_spec(settings, prices),
                settings.budget as int,
                j,
            )
        }
}

/// Law: planning is deterministic. The planner's contract pins every field
/// of every order to a function of the settings and prices alone, so two
/// outputs for the same inputs are equal.
pub proof fn lemma_plan_deterministic(
    settings: Settings,
    prices: Seq<i64>,
    r1: Seq<Investment>,
    r2: Seq<Investment>,
)
    requires
        investment_plan_matches(settings, prices, r1),
        investment_plan_matches(settings, prices, r2),
    ensures
        r1 == r2,
{
    assert forall|j: int| 0 <= j < r1.len() implies r1[j] == r2[j] by {
        assert(r1[j].etf_id == r2[j].etf_id);
        assert(r1[j].name == r2[j].name);
        assert(r1[j].quantity == r2[j].quantity);
        assert(r1[j].price == r2[j].price);
    }
    assert(r1 =~= r2);
}

/// Plans the next round of purchases: derives per-asset targets from the
/// settings, solves the allocation problem under the budget, and returns one
/// buy order per asset, in the same order as the settings.
pub fn next_investments(settings: Settings, prices: &[i64]) -> (r: Vec<Investment>)
    requires
        settings.etf_settings@.len() == prices@.len(),
        settings.etf_settings@.len() <= MAX_ASSETS,
        0 <= settings.budget <= MAX_BUDGET,
        forall|j: int| 0 <= j < prices@.len() ==> 1 <= #[trigger] prices@[j],
        forall|j: int|
            0 <= j < settings.etf_settings@.len() ==> 0 <= (#[trigger] settings.etf_settings@[j]).cumulative
                <= MAX_AMOUNT,
        forall|j: int|
            0 <= j < settings.etf_settings@.len() ==> -MAX_PROPORTION <= (
            #[trigger] settings.etf_settings@[j]).ideal_proportion <= MAX_PROPORTION,
    ensures
        investment_plan_matches(settings, prices@, r@),
{
    let ghost b: int = settings.budget as int;
    let ghost n: int = settings.etf_settings@.len() as int;

    let items: Vec<EtfItem> = calc_etf_items(&settings, prices);
    let ghost items_g: Seq<EtfItem> = items@;

    proof {
        let incr: Seq<int> = Seq::new(n as nat, |j: int| items_g[j].target - items_g[j].cumulative);
        assert forall|j: int| 0 <= j < n implies #[trigger] incr[j] == target_spec(
            proportions_of(settings),
            amounts_of(settings),
            b,
            j,
        ) - amounts_of(settings)[j] by {
            assert(items_g[j] == etf_items_spec(settings, prices@)[j]);
            assert(amounts_of(settings)[j] == settings.etf_settings@[j].cumulative as int);
            lemma_target_in_range(proportions_of(settings), amounts_of(settings), b, j);
        }
        if n >= 1 {
            lemma_target_increase_sum(
                proportions_of(settings),
                amounts_of(settings),
                b,
                incr,
                n,
            );
        }
        lemma_initial_error_bound(items_g, incr, n);
        crate::knap_sack::lemma_prefix_sum_monotone(incr, 0, n);
        assert(prefix_sum(incr, n) * prefix_sum(incr, n) <= 2_250_000_000_000_000_000)
            by (nonlinear_arith)
            requires
                0 <= prefix_sum(incr, n) <= 1_500_000_000,
        ;
        assert forall|j: int| 0 <= j < n implies crate::knap_sack::asset_arith_fits(
            #[trigger] items_g[j],
            b,
        ) by {
            let e = items_g[j];
            assert(e == etf_items_spec(settings, prices@)[j]);
            assert(0 <= e.target - e.cumulative <= b);
            assert(vstd::math::abs(e.target - e.cumulative) + b <= 3_000_000_000);
            assert((vstd::math::abs(e.target - e.cumulative) + b) * (vstd::math::abs(
                e.target - e.cumulative,
            ) + b) <= 9_000_000_000_000_000_000) by (nonlinear_arith)
                requires
                    0 <= vstd::math::abs(e.target - e.cumulative) + b <= 3_000_000_000,
            ;
        }
        assert(n * b <= 15_000_000_000_000) by (nonlinear_arith)
            requires
                0 <= n <= 10_000,
                0 <= b <= 1_500_000_000,
        ;
    }

    let solution: Vec<(EtfItem, i64)> = solve_etf_problem(settings.budget, items);

    let mut investments: Vec<Investment> = Vec::new();
    let mut j: usize = 0;
    #[verifier::loop_isolation(false)]
    while j < solution.len()
        invariant
            j <= n,
            solution@.len() == n,
            investments@.len() == j,
            forall|x: int|
                0 <= x < j ==> {
                    let order = #[trigger] investments@[x];
                    &&& order.etf_id == settings.etf_settings@[x].id
                    &&& order.name == settings.etf_settings@[x].name
                    &&& order.price == prices@[x]
                    &&& order.quantity == planned_quantity(etf_items_spec(settings, prices@), b, x)
                },
        decreases n - j,
    {
        let pair: (EtfItem, i64) = solution[j];
        let setting = &settings.etf_settings[j];
        let order = Investment::new(setting.id.clone(), setting.name.clone(), pair.1, pair.0.price);
        proof {
            assert(solution@[j as int].0 == items_g[j as int]);
            assert(items_g[j as int] == etf_items_spec(settings, prices@)[j as int]);
        }
        investments.push(order);
        j += 1;
    }
    investments
}

/// The money a list of buy orders spends: the sum over the first `i` orders
/// of quantity times unit price.
pub open spec fn spent(investments: Seq<Investment>, prices: Seq<int>, i: int) -> int
    decreases i,
{
    if i <= 0 {
        0
    } else {
        spent(investments, prices, i - 1) + investments[i - 1].quantity * prices[i - 1]
    }
}

proof fn lemma_spent_monotone(investments: Seq<Investment>, prices: Seq<int>, i: int, j: int)
    requires
        0 <= i <= j,
        j <= investments.len(),
        j <= prices.len(),
        forall|x: int| 0 <= x < j ==> 0 <= (#[trigger] investments[x]).quantity,
        forall|x: int| 0 <= x < j ==> 0 <= #[trigger] prices[x],
    ensures
        spent(investments, prices, i) <= spent(investments, prices, j),
    decreases j - i,
{
    if i < j {
        lemma_spent_monotone(investments, prices, i, j - 1);
        assert(0 <= investments[j - 1].quantity * prices[j - 1]) by (nonlinear_arith)
            requires
                0 <= investments[j - 1].quantity,
                0 <= prices[j - 1],
        ;
    }
}

/// The total amount of money a list of buy orders spends at the given unit
/// prices.
pub fn total_amount_spent(investments: &[Investment], prices: &[i64]) -> (r: i64)
    requires
        investments@.len() == prices@.len(),
        forall|x: int| 0 <= x < investments@.len() ==> 0 <= (#[trigger] investments@[x]).quantity,
        forall|x: int| 0 <= x < prices@.len() ==> 0 <= #[trigger] prices@[x],
        spent(investments@, int_seq(prices@), investments@.len() as int) <= i64::MAX,
    ensures
        r == spent(investments@, int_seq(prices@), investments@.len() as int),
        0 <= r,
{
    let ghost ps: Seq<int> = int_seq(prices@);
    let ghost n: int = investments@.len() as int;
    let mut acc: i64 = 0;
    let mut i: usize = 0;
    #[verifier::loop_isolation(false)]
    while i < investments.len()
        invariant
            i <= n,
            acc == spent(investments@, ps, i as int),
        decreases n - i,
    {
        proof {
            lemma_spent_monotone(investments@, ps, 0, i as int);
            lemma_spent_monotone(investments@, ps, i + 1, n);
            assert(0 <= investments@[i as int].quantity * ps[i as int]) by (nonlinear_arith)
                requires
                    0 <= investments@[i as int].quantity,
                    0 <= ps[i as int],
            ;
        }
        acc = acc + investments[i].quantity * prices[i];
        i += 1;
    }
    proof {
        lemma_spent_monotone(investments@, ps, 0, n);
    }
    acc
}

/// The money left after the given buy orders: the budget minus the total
/// amount spent.
pub fn left_over_budget(budget: i64, investments: &[Investment], prices: &[i64]) -> (r: i64)
    requires
        0 <= budget,
        investments@.len() == prices@.len(),
        forall|x: int| 0 <= x < investments@.len() ==> 0 <= (#[trigger] investments@[x]).quantity,
        forall|x: int| 0 <= x < prices@.len() ==> 0 <= #[trigger] prices@[x],
        spent(investments@, int_seq(prices@), investments@.len() as int) <= i64::MAX,
    ensures
        r == budget - spent(investments@, int_seq(prices@), investments@.len() as int),
{
    let total: i64 = total_amount_spent(investments, prices);
    budget - total
}

} // verus!
