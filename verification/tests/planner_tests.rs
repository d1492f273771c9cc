//! End-to-end planning cases. Weights are integers in an arbitrary common
//! scale (thousandths here); money is in the smallest unit, so 600_00 is a
//! budget of six hundred whole units.

use investment_planner::planner::left_over_budget;
use investment_planner::planner::next_investments;
use investment_planner::planner::total_amount_spent;
use investment_planner::planner::EtfSetting;
use investment_planner::planner::Investment;
use investment_planner::planner::Settings;

#[test]
fn test_next_investments_one() {
    let settings = Settings::new(
        600_00,
        vec![EtfSetting::new("ID1".into(), "".to_string(), "".to_string(), 500, 100_00)],
    );
    let prices = vec![5_00i64];
    let investments = next_investments(settings, &prices);
    assert_eq!(investments, vec![Investment::new("ID1".into(), "".to_string(), 120, 5_00)]);
}

#[test]
fn test_next_investments_thre() {
    let settings = Settings::new(
        500_00,
        vec![
            EtfSetting::new("ID1".into(), "".to_string(), "".to_string(), 500, 100_00),
            EtfSetting::new("ID2".into(), "".to_string(), "".to_string(), 1000, 100_00),
            EtfSetting::new("ID3".into(), "".to_string(), "".to_string(), 500, 100_00),
        ],
    );
    let prices = vec![5_00i64, 5_00i64, 5_00i64];
    let investments = next_investments(settings, &prices);
    assert_eq!(
        investments,
        vec![
            Investment::new("ID1".into(), "".to_string(), 20, 5_00),
            Investment::new("ID2".into(), "".to_string(), 60, 5_00),
            Investment::new("ID3".into(), "".to_string(), 20, 5_00),
        ]
    );
}

#[test]
fn test_next_investments_three_not_perfect() {
    let etf_settings = vec![
        EtfSetting::new("ID1".into(), "".to_string(), "".to_string(), 250, 25_00),
        EtfSetting::new("ID2".into(), "".to_string(), "".to_string(), 250, 25_00),
        EtfSetting::new("ID3".into(), "".to_string(), "".to_string(), 500, 50_00),
    ];
    let settings = Settings::new(100_00, etf_settings.clone());
    let prices = vec![7_00i64, 9_00i64, 3_00i64];
    let investments = next_investments(settings, &prices);
    let final_amounts = investments
        .iter()
        .zip(prices.iter())
        .map(|(i, p)| i.quantity * p)
        .zip(etf_settings)
        .map(|(a, s)| a + s.cumulative)
        .collect::<Vec<_>>();

    assert_eq!(final_amounts, vec![46_00, 52_00, 101_00]);

    assert_eq!(total_amount_spent(&investments, &prices), 99_00);
    assert_eq!(left_over_budget(100_00, &investments, &prices), 1_00);
}

#[test]
fn test_next_investments_deterministic() {
    let make_settings = || {
        Settings::new(
            100_00,
            vec![
                EtfSetting::new("A".into(), "".to_string(), "".to_string(), 250, 25_00),
                EtfSetting::new("B".into(), "".to_string(), "".to_string(), 750, 25_00),
            ],
        )
    };
    let prices = vec![7_00i64, 9_00i64];
    let first = next_investments(make_settings(), &prices);
    let second = next_investments(make_settings(), &prices);
    assert_eq!(first, second);
}

#[test]
fn test_next_investments_full_gap_closed() {
    // Budget 10, a single asset at price 1: its target absorbs the whole
    // budget, so the plan buys 10 units and nothing is left over.
    let settings = Settings::new(
        10,
        vec![EtfSetting::new("ID1".into(), "".to_string(), "".to_string(), 1000, 0)],
    );
    let prices = vec![1i64];
    let investments = next_investments(settings, &prices);
    assert_eq!(investments.len(), 1);
    assert_eq!(investments[0].quantity, 10);
    assert_eq!(total_amount_spent(&investments, &prices), 10);
    assert_eq!(left_over_budget(10, &investments, &prices), 0);
}

#[test]
fn test_next_investments_no_assets() {
    let settings = Settings::new(100, vec![]);
    let prices: Vec<i64> = vec![];
    let investments = next_investments(settings, &prices);
    assert!(investments.is_empty());
    assert_eq!(total_amount_spent(&investments, &prices), 0);
    assert_eq!(left_over_budget(100, &investments, &prices), 100);
}

#[test]
fn test_settings_new() {
    let setting = EtfSetting::new("id".into(), "isin".into(), "name".into(), 42, 7);
    assert_eq!(setting.id, "id".to_string());
    assert_eq!(setting.isin, "isin".to_string());
    assert_eq!(setting.name, "name".to_string());
    assert_eq!(setting.ideal_proportion, 42);
    assert_eq!(setting.cumulative, 7);
    let settings = Settings::new(500, vec![setting]);
    assert_eq!(settings.budget, 500);
    assert_eq!(settings.etf_settings.len(), 1);
}

#[test]
fn test_investment_new() {
    let investment = Investment::new("id".into(), "name".into(), 3, 250);
    assert_eq!(investment.etf_id, "id".to_string());
    assert_eq!(investment.name, "name".to_string());
    assert_eq!(investment.quantity, 3);
    assert_eq!(investment.price, 250);
}
