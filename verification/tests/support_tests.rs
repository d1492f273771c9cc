use std::rc::Rc;

use investment_planner::check_option;
use investment_planner::etf_info::ETF;
use investment_planner::rclist::RcList;

#[test]
fn test_rclist_iterates_front_to_back() {
    let stop = Rc::new(RcList::Stop);
    let one = Rc::new(RcList::Node(1usize, stop));
    let list = RcList::Node(2usize, one);
    let collected: Vec<usize> = {
        let mut out = vec![];
        let mut it = list.iter();
        while let Some(&x) = it.next() {
            out.push(x);
        }
        out
    };
    assert_eq!(collected, vec![2, 1]);
}

#[test]
fn test_rclist_shares_tails() {
    // Two lists hang off the same tail; both see it unchanged.
    let shared = Rc::new(RcList::Node(7usize, Rc::new(RcList::Stop)));
    let a = RcList::Node(1usize, shared.clone());
    let b = RcList::Node(2usize, shared);
    let mut it_a = a.iter();
    let mut it_b = b.iter();
    assert_eq!(it_a.next(), Some(&1));
    assert_eq!(it_b.next(), Some(&2));
    assert_eq!(it_a.next(), Some(&7));
    assert_eq!(it_b.next(), Some(&7));
    assert_eq!(it_a.next(), None);
    assert_eq!(it_b.next(), None);
}

#[test]
fn test_check_option_none() {
    let r = check_option(None::<i64>, || -1i64, |x| x + 1);
    assert_eq!(r, -1);
}

#[test]
fn test_check_option_some() {
    let r = check_option(Some(3i64), || -1i64, |x| x + 1);
    assert_eq!(r, 4);
}

#[test]
fn test_etf_new() {
    let etf = ETF::new("A Fund".to_string(), "IE0000000000".to_string(), "AFND.L".to_string());
    assert_eq!(etf.name, "A Fund".to_string());
    assert_eq!(etf.isin, "IE0000000000".to_string());
    assert_eq!(etf.ticker, "AFND.L".to_string());
}
