//! Plans whole-unit fund purchases: given a cash budget, per-asset target
//! weights, current holdings and unit prices, it derives per-asset target
//! amounts, expands them into candidate purchase steps, and solves a 0/1
//! knapsack over those steps to spend the budget with the least remaining
//! squared allocation error.

pub mod calc_etf_items;
pub mod etf_info;
pub mod knap_sack;
pub mod planner;
pub mod rclist;
pub mod strategy;

use vstd::prelude::*;

verus! {

/// Dispatches on an `Option`, calling one continuation when it is empty and
/// the other on the contained value.
pub fn check_option<T, Ret, RetNone: Fn() -> Ret, RetSome: Fn(T) -> Ret>(
    option: Option<T>,
    ret_none: RetNone,
    ret_some: RetSome,
) -> (r: Ret)
    requires
        option is None ==> call_requires(ret_none, ()),
        forall|t: T| option == Some(t) ==> call_requires(ret_some, (t,)),
    ensures
        option is None ==> call_ensures(ret_none, (), r),
        option matches Some(t) ==> call_ensures(ret_some, (t,), r),
{
    match option {
        None => ret_none(),
        Some(t) => ret_some(t),
    }
}

} // verus!
