use investment_planner::knap_sack::generate_weights_and_values;
use investment_planner::knap_sack::knap_sack_rc_list;
use investment_planner::knap_sack::KnapSackItem;
use investment_planner::strategy::EtfItem;

#[test]
fn test_knap_sack_three() {
    let (value, indices) = knap_sack_rc_list(600, &vec![300, 200, 250], &vec![150, 200, 250]);
    assert_eq!(value, 450);
    assert_eq!(indices, vec![1, 2]);
}

#[test]
fn test_knap_sack_memo_set_three() {
    let (value, indices) = knap_sack_rc_list(600, &vec![300, 200, 250], &vec![150, 200, 250]);
    assert_eq!(value, 450);
    assert_eq!(indices, vec![1, 2]);
}

#[test]
fn test_knap_sack_with_no_items() {
    let weights = vec![];
    let values = vec![];
    let max_weight = 10;

    let (max_value, selected_items) = knap_sack_rc_list(max_weight, &weights, &values);

    // No items, so max_value should be 0, and the selected_items set should be empty.
    assert_eq!(max_value, 0);
    assert!(selected_items.is_empty());
}

#[test]
fn test_knap_sack_with_no_capacity() {
    let weights = vec![5, 10, 15];
    let values = vec![10, 20, 30];
    let max_weight = 0;

    let (max_value, selected_items) = knap_sack_rc_list(max_weight, &weights, &values);

    // No capacity, so the max_value should be 0, and no items can be selected.
    assert_eq!(max_value, 0);
    assert!(selected_items.is_empty());
}

#[test]
fn test_knap_sack_with_exact_capacity() {
    let weights = vec![5, 10, 15];
    let values = vec![10, 19, 30];
    let max_weight = 15;

    let (max_value, selected_items) = knap_sack_rc_list(max_weight, &weights, &values);

    // Max weight is exactly the weight of the third item, so we expect it to be selected.
    assert_eq!(max_value, 30);
    let expected_items = vec![2];
    assert_eq!(selected_items, expected_items);
}

#[test]
fn test_knap_sack_with_multiple_choices() {
    let weights = vec![5, 10, 15];
    let values = vec![10, 20, 30];
    let max_weight = 20;

    let (max_value, selected_items) = knap_sack_rc_list(max_weight, &weights, &values);

    // The best value comes from selecting the first and third items, total weight = 20.
    assert_eq!(max_value, 40);
    let expected_items = vec![0, 2];
    assert_eq!(selected_items, expected_items);
}

#[test]
fn test_knap_sack_with_large_weights_and_values() {
    let weights = vec![1, 3, 4, 5];
    let values = vec![1, 4, 5, 7];
    let max_weight = 7;

    let (max_value, selected_items) = knap_sack_rc_list(max_weight, &weights, &values);

    // The optimal selection is the items with weights 3 and 4, values 4 and 5, total value = 9.
    assert_eq!(max_value, 9);
    let expected_items = vec![1, 2];
    assert_eq!(selected_items, expected_items);
}

#[test]
fn test_knap_sack_no_items_fit() {
    let weights = vec![10, 20, 30];
    let values = vec![60, 100, 120];
    let max_weight = 5;

    let (max_value, selected_items) = knap_sack_rc_list(max_weight, &weights, &values);

    // No items fit in the knapsack, so the value should be 0 and no items selected.
    assert_eq!(max_value, 0);
    assert!(selected_items.is_empty());
}

#[test]
fn test_generate_weights_and_values_one() {
    let budget = 10;
    let etfs = vec![EtfItem::new(0, 5, 1)];
    let items = generate_weights_and_values(budget, &etfs);
    assert_eq!(items.len(), 5);
    let values = items.iter().map(|item| item.value).collect::<Vec<_>>();
    assert_eq!(values, vec![9, 7, 5, 3, 1]);
    let weights = items.iter().map(|item| item.weight).collect::<Vec<_>>();
    assert_eq!(weights, vec![1; 5]);
}

#[test]
fn test_knap_sack_value_monotone_in_capacity() {
    // Raising the capacity never lowers the best value.
    let weights = vec![300, 200, 250];
    let values = vec![150, 200, 250];
    let mut last = 0;
    for cap in [0, 150, 200, 450, 600, 650, 750] {
        let (value, _) = knap_sack_rc_list(cap, &weights, &values);
        assert!(value >= last);
        last = value;
    }
}

#[test]
fn test_knap_sack_selection_within_budget() {
    // The selected weights sum to at most the capacity and no index repeats.
    let weights = vec![7, 3, 9, 4, 6, 2];
    let values = vec![13, 5, 20, 9, 11, 3];
    let (_, selected) = knap_sack_rc_list(14, &weights, &values);
    let total: i64 = selected.iter().map(|&i| weights[i]).sum();
    assert!(total <= 14);
    for a in 0..selected.len() {
        for b in (a + 1)..selected.len() {
            assert_ne!(selected[a], selected[b]);
        }
    }
}

#[test]
fn test_knap_sack_tie_breaks_to_lowest_index() {
    // Two identical items, room for one: the earlier item wins the tie.
    let weights = vec![5, 5];
    let values = vec![10, 10];
    let (value, selected) = knap_sack_rc_list(5, &weights, &values);
    assert_eq!(value, 10);
    assert_eq!(selected, vec![0]);
}

#[test]
fn test_knap_sack_item_new() {
    let item = KnapSackItem::new(9, 1, 0);
    assert_eq!(item.value, 9);
    assert_eq!(item.weight, 1);
    assert_eq!(item.etf_index, 0);
}
