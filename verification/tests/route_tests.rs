use rust_backend::route::{
    compute_plan, feasible_quantity, knapsack, profit_in_range, OptimizerError, ResourceItem,
    SelectionPlan,
};

fn item(profit: u64, cost: u64, cargo: u64, quantity: u64) -> ResourceItem {
    ResourceItem { profit, cost, cargo, quantity }
}

#[test]
fn single_item_is_bounded_by_the_budget() {
    let plan = knapsack(&[item(10, 1, 1, 5)], 3, 100);
    assert_eq!(plan, SelectionPlan { profit: 30, picks: vec![(0, 3)] });
}

#[test]
fn single_item_in_hundredths() {
    let plan = knapsack(&[item(1000, 100, 100, 5)], 300, 10000);
    assert_eq!(plan.profit, 3000);
    assert_eq!(plan.picks, vec![(0, 3)]);
}

#[test]
fn no_items_give_the_empty_plan() {
    let plan = knapsack(&[], 50, 50);
    assert_eq!(plan.profit, 0);
    assert!(plan.picks.is_empty());
    assert_eq!(compute_plan(&[], 0, 0), Ok(SelectionPlan { profit: 0, picks: vec![] }));
}

#[test]
fn dominated_item_adds_nothing_when_the_budget_is_spent() {
    let alone = knapsack(&[item(10, 1, 1, 5)], 3, 100);
    let both = knapsack(&[item(10, 1, 1, 5), item(9, 2, 1, 5)], 3, 100);
    assert_eq!(alone.profit, 30);
    assert_eq!(both.profit, alone.profit);
    assert_eq!(both.picks, vec![(0, 3)]);
}

#[test]
fn dominated_item_is_taken_when_room_is_left() {
    let both = knapsack(&[item(10, 1, 1, 5), item(9, 2, 1, 5)], 100, 100);
    assert_eq!(both.profit, 95);
    assert_eq!(both.picks, vec![(0, 5), (1, 5)]);
}

#[test]
fn four_items_under_both_limits() {
    let items = [
        item(6000, 10, 20, 100),
        item(10000, 20, 50, 50),
        item(10000, 10, 50, 50),
        item(10000, 20, 30, 50),
    ];
    let plan = knapsack(&items, 5000, 5000);
    assert_eq!(plan.profit, 1_260_000);
    assert_eq!(plan.picks, vec![(0, 100), (1, 50), (3, 16)]);
}

#[test]
fn only_the_largest_quantity_of_an_item_is_tried() {
    // Two of each would earn 16; the planner takes an item in full or not at all.
    let plan = knapsack(&[item(3, 2, 2, 4), item(5, 3, 3, 4)], 10, 10);
    assert_eq!(plan.profit, 15);
    assert_eq!(plan.picks, vec![(1, 3)]);
}

#[test]
fn free_item_is_limited_by_the_hold_only() {
    let plan = knapsack(&[item(5, 0, 2, 7)], 0, 9);
    assert_eq!(plan.profit, 20);
    assert_eq!(plan.picks, vec![(0, 4)]);
}

#[test]
fn weightless_free_item_is_taken_in_full() {
    let plan = knapsack(&[item(2, 0, 0, 6)], 0, 0);
    assert_eq!(plan.profit, 12);
    assert_eq!(plan.picks, vec![(0, 6)]);
}

#[test]
fn equal_profit_keeps_the_earlier_plan() {
    let plan = knapsack(&[item(1, 1, 1, 2), item(1, 1, 1, 2)], 2, 2);
    assert_eq!(plan.profit, 2);
    assert_eq!(plan.picks, vec![(0, 2)]);
}

#[test]
fn better_plan_replaces_the_one_at_its_state() {
    let plan = knapsack(&[item(1, 1, 1, 2), item(1, 1, 1, 2), item(3, 2, 2, 1)], 2, 2);
    assert_eq!(plan.profit, 3);
    assert_eq!(plan.picks, vec![(2, 1)]);
}

#[test]
fn nothing_fits_gives_the_empty_plan() {
    let plan = knapsack(&[item(10, 5, 1, 3)], 4, 100);
    assert_eq!(plan.profit, 0);
    assert!(plan.picks.is_empty());
}

#[test]
fn feasible_quantity_is_the_smallest_of_the_three_limits() {
    assert_eq!(feasible_quantity(&item(1, 2, 3, 10), 9, 100), 4);
    assert_eq!(feasible_quantity(&item(1, 2, 3, 10), 100, 10), 3);
    assert_eq!(feasible_quantity(&item(1, 2, 3, 10), 100, 100), 10);
    assert_eq!(feasible_quantity(&item(1, 0, 0, 10), 0, 0), 10);
    assert_eq!(feasible_quantity(&item(1, 1, 1, 0), 5, 5), 0);
    assert_eq!(feasible_quantity(&item(1, 6, 1, 3), 5, 5), 0);
}

#[test]
fn profit_out_of_range_is_refused() {
    let items = [item(u64::MAX, 1, 1, 2)];
    assert!(!profit_in_range(&items, 10, 10));
    assert_eq!(compute_plan(&items, 10, 10), Err(OptimizerError::ProfitOutOfRange));
    let sum = [item(u64::MAX, 1, 1, 1), item(1, 1, 1, 1)];
    assert!(!profit_in_range(&sum, 10, 10));
    assert_eq!(compute_plan(&sum, 10, 10), Err(OptimizerError::ProfitOutOfRange));
}

#[test]
fn profit_at_the_edge_of_the_range_is_planned() {
    let items = [item(u64::MAX, 1, 1, 1)];
    assert!(profit_in_range(&items, 1, 1));
    assert_eq!(
        compute_plan(&items, 1, 1),
        Ok(SelectionPlan { profit: u64::MAX, picks: vec![(0, 1)] })
    );
}

#[test]
fn compute_plan_agrees_with_knapsack() {
    let items = [item(3, 2, 2, 4), item(5, 3, 3, 4)];
    assert_eq!(compute_plan(&items, 10, 10), Ok(knapsack(&items, 10, 10)));
}

#[test]
fn a_large_stock_is_counted_only_as_far_as_the_limits_reach() {
    let items = [item(2, 1, 0, u64::MAX)];
    assert!(profit_in_range(&items, 3, 0));
    assert_eq!(compute_plan(&items, 3, 0), Ok(SelectionPlan { profit: 6, picks: vec![(0, 3)] }));
    let two = [item(u64::MAX, 1, 1, u64::MAX), item(5, 2, 1, u64::MAX)];
    assert!(!profit_in_range(&two, 2, 9));
    assert!(profit_in_range(&two, 1, 9));
    assert!(!profit_in_range(&two, 3, 9));
    assert_eq!(
        compute_plan(&two, 1, 9),
        Ok(SelectionPlan { profit: u64::MAX, picks: vec![(0, 1)] })
    );
}

#[test]
fn a_free_and_weightless_stock_beyond_the_range_is_refused() {
    let items = [item(2, 0, 0, u64::MAX)];
    assert!(!profit_in_range(&items, 3, 3));
    assert_eq!(compute_plan(&items, 3, 3), Err(OptimizerError::ProfitOutOfRange));
}
