use investment_planner::strategy::calc_total_price;
use investment_planner::strategy::solve_etf_problem;
use investment_planner::strategy::EtfItem;

fn calc_total_error(etfs: &[EtfItem], buy_quantities: &[i64]) -> i64 {
    etfs.iter()
        .zip(buy_quantities)
        .map(|(etf, quantity)| {
            let diff = etf.target - (etf.cumulative + etf.price * quantity);
            diff * diff
        })
        .sum()
}

#[test]
fn test_solve_etf_problem_one() {
    let budget = 10;
    let etfs = vec![EtfItem::new(0, 5, 1)];
    let buy_quantities = solve_etf_problem(budget, etfs.clone());
    assert_eq!(buy_quantities, etfs.into_iter().zip(vec![5]).collect::<Vec<_>>());
}

#[test]
fn test_solve_etf_problem_two() {
    let budget = 89;
    let etfs = vec![EtfItem::new(0, 5, 8), EtfItem::new(80, 95, 5)];
    let buy_quantities = solve_etf_problem(budget, etfs.clone());
    assert_eq!(buy_quantities, etfs.into_iter().zip(vec![1, 3]).collect::<Vec<_>>());
}

#[test]
fn test_solve_etf_problem_three() {
    let budget = 600;
    let etfs = vec![
        EtfItem::new(0, 200, 300),
        EtfItem::new(0, 200, 200),
        EtfItem::new(0, 200, 250),
    ];
    let buy_quantities = solve_etf_problem(budget, etfs.clone());
    assert_eq!(buy_quantities, etfs.clone().into_iter().zip(vec![0, 1, 1]).collect::<Vec<_>>());
    let total_price =
        calc_total_price(&etfs, &buy_quantities.iter().map(|q| q.1).collect::<Vec<_>>());
    assert_eq!(total_price, 450);
    let total_error =
        calc_total_error(&etfs, &buy_quantities.iter().map(|q| q.1).collect::<Vec<_>>());
    assert_eq!(total_error, 42500);
}

#[test]
fn test_solve_etf_problem_threee() {
    let budget = 600 - 450 + 600;
    let etfs = vec![
        EtfItem::new(0, 400, 300),
        EtfItem::new(200, 400, 200),
        EtfItem::new(250, 400, 250),
    ];
    let buy_quantities = solve_etf_problem(budget, etfs.clone());
    assert_eq!(buy_quantities, etfs.clone().into_iter().zip(vec![1, 1, 1]).collect::<Vec<_>>());
    let total_price =
        calc_total_price(&etfs, &buy_quantities.iter().map(|q| q.1).collect::<Vec<_>>());
    assert_eq!(total_price, 750);
    let total_error =
        calc_total_error(&etfs, &buy_quantities.iter().map(|q| q.1).collect::<Vec<_>>());
    assert_eq!(total_error, 20000);
}

#[test]
fn test_solve_etf_problem_threeee() {
    let budget = 600 - 750 + 600 - 450 + 600;
    let etfs = vec![
        EtfItem::new(300, 600, 300),
        EtfItem::new(400, 600, 200),
        EtfItem::new(500, 600, 250),
    ];
    let buy_quantities = solve_etf_problem(budget, etfs.clone());
    assert_eq!(buy_quantities, etfs.clone().into_iter().zip(vec![1, 1, 0]).collect::<Vec<_>>());
    let total_price =
        calc_total_price(&etfs, &buy_quantities.iter().map(|q| q.1).collect::<Vec<_>>());
    assert_eq!(total_price, 500);
    let total_error =
        calc_total_error(&etfs, &buy_quantities.iter().map(|q| q.1).collect::<Vec<_>>());
    assert_eq!(total_error, 10000);
}

#[test]
fn test_solve_etf_problem_threeeee() {
    let budget = 600 - 500 + 600 - 750 + 600 - 450 + 600;
    let etfs = vec![
        EtfItem::new(600, 800, 300),
        EtfItem::new(600, 800, 200),
        EtfItem::new(500, 800, 250),
    ];
    let buy_quantities = solve_etf_problem(budget, etfs.clone());
    assert_eq!(buy_quantities, etfs.clone().into_iter().zip(vec![0, 1, 1]).collect::<Vec<_>>());
    let total_price =
        calc_total_price(&etfs, &buy_quantities.iter().map(|q| q.1).collect::<Vec<_>>());
    assert_eq!(total_price, 450);
    let total_error =
        calc_total_error(&etfs, &buy_quantities.iter().map(|q| q.1).collect::<Vec<_>>());
    assert_eq!(total_error, 42500);
}

#[test]
fn test_solve_etf_problem_three_small_budget() {
    let budget = 150;
    let etfs = vec![
        EtfItem::new(600, 800, 300),
        EtfItem::new(600, 800, 200),
        EtfItem::new(500, 800, 250),
    ];
    let buy_quantities = solve_etf_problem(budget, etfs.clone());
    assert_eq!(buy_quantities, etfs.into_iter().zip(vec![0, 0, 0]).collect::<Vec<_>>());
}

#[test]
fn test_solve_etf_problem_three_negative_target() {
    let budget = 850;
    let etfs = vec![
        EtfItem::new(600, 800, 300),
        EtfItem::new(600, 500, 200),
        EtfItem::new(500, 1000, 250),
    ];
    let buy_quantities = solve_etf_problem(budget, etfs.clone());
    assert_eq!(buy_quantities, etfs.into_iter().zip(vec![1, 0, 2]).collect::<Vec<_>>());
}

#[test]
fn test_solve_etf_problem_deterministic() {
    // The same inputs give the same plan, run after run.
    let budget = 600;
    let etfs = vec![
        EtfItem::new(0, 200, 300),
        EtfItem::new(0, 200, 200),
        EtfItem::new(0, 200, 250),
    ];
    let first = solve_etf_problem(budget, etfs.clone());
    let second = solve_etf_problem(budget, etfs);
    assert_eq!(first, second);
}

#[test]
fn test_calc_total_price_nothing_bought() {
    let etfs = vec![EtfItem::new(0, 200, 300), EtfItem::new(0, 200, 200)];
    assert_eq!(calc_total_price(&etfs, &vec![0, 0]), 0);
}

#[test]
fn test_etf_item_new() {
    let item = EtfItem::new(1, 2, 3);
    assert_eq!(item.cumulative, 1);
    assert_eq!(item.target, 2);
    assert_eq!(item.price, 3);
}
