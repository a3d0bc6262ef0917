use rust_backend::market::order::Order;
use rust_backend::market::trade::{split_orders, Trade, TAX_PERCENT};

fn order(order_id: u64, type_id: u64, is_buy_order: bool, price: u64, volume_remain: u64) -> Order {
    Order {
        duration: 90,
        is_buy_order,
        issued: 1_700_000_000,
        location_id: 60003760,
        min_volume: 1,
        order_id,
        price,
        range: String::from("region"),
        system_id: 30000142,
        type_id,
        volume_remain,
        volume_total: volume_remain + 10,
    }
}

#[test]
fn tax_is_eight_percent() {
    assert_eq!(TAX_PERCENT, 8);
}

#[test]
fn no_candidate_where_the_taxed_price_equals_the_sell_price() {
    let sells = [order(1, 34, false, 92, 10)];
    let buys = [order(2, 34, true, 100, 10)];
    assert!(Trade::create_trades(&sells, &buys).is_empty());
}

#[test]
fn no_candidate_where_the_taxed_price_is_below_the_sell_price() {
    let sells = [order(1, 34, false, 9500, 10)];
    let buys = [order(2, 34, true, 10000, 10)];
    assert!(Trade::create_trades(&sells, &buys).is_empty());
}

#[test]
fn one_candidate_where_the_taxed_price_is_above_the_sell_price() {
    let sells = [order(1, 34, false, 91, 7)];
    let buys = [order(2, 34, true, 100, 12)];
    let trades = Trade::create_trades(&sells, &buys);
    assert_eq!(trades.len(), 1);
    assert_eq!(trades[0].from.order_id, 1);
    assert_eq!(trades[0].to.order_id, 2);
    assert_eq!(trades[0].quantity, 7);
    assert_eq!(trades[0].unit_margin, 100 * 92 - 91 * 100);
    assert_eq!(trades[0].gross_profit(), Some(700));
    // 7 units at 1.00 * 0.92 - 0.91 each
    let expected = 7.0 * (1.00 * 0.92 - 0.91);
    let got = 700.0 / 10000.0;
    assert!((got - expected as f64).abs() < 1e-9);
}

#[test]
fn quantity_is_the_smaller_volume_on_either_side() {
    let sells = [order(1, 34, false, 10, 50)];
    let buys = [order(2, 34, true, 100, 3)];
    let trades = Trade::create_trades(&sells, &buys);
    assert_eq!(trades.len(), 1);
    assert_eq!(trades[0].quantity, 3);
    assert_eq!(trades[0].gross_profit(), Some(3 * (9200 - 1000)));
}

#[test]
fn orders_of_different_types_are_not_paired() {
    let sells = [order(1, 34, false, 10, 5)];
    let buys = [order(2, 35, true, 100, 5)];
    assert!(Trade::create_trades(&sells, &buys).is_empty());
}

#[test]
fn an_order_without_volume_gives_no_candidate() {
    let sells = [order(1, 34, false, 10, 0)];
    let buys = [order(2, 34, true, 100, 5)];
    assert!(Trade::create_trades(&sells, &buys).is_empty());
    assert!(Trade::between(&sells[0], &buys[0]).is_none());
}

#[test]
fn every_profitable_pair_of_a_type_is_kept() {
    let sells = [
        order(1, 34, false, 10, 5),
        order(2, 35, false, 10, 5),
        order(3, 34, false, 95, 5),
        order(4, 34, false, 20, 9),
    ];
    let buys = [order(10, 34, true, 100, 4), order(11, 35, true, 50, 8), order(12, 34, true, 30, 6)];
    let trades = Trade::create_trades(&sells, &buys);
    let pairs: Vec<(u64, u64, u64)> =
        trades.iter().map(|t| (t.from.order_id, t.to.order_id, t.quantity)).collect();
    assert_eq!(
        pairs,
        vec![(1, 10, 4), (1, 12, 5), (2, 11, 5), (4, 10, 4), (4, 12, 6)]
    );
}

#[test]
fn candidates_do_not_reserve_volume() {
    let sells = [order(1, 34, false, 10, 5)];
    let buys = [order(10, 34, true, 100, 5), order(11, 34, true, 100, 5)];
    let trades = Trade::create_trades(&sells, &buys);
    assert_eq!(trades.len(), 2);
    assert_eq!(trades[0].quantity + trades[1].quantity, 10);
}

#[test]
fn empty_sides_give_no_candidates() {
    let some = [order(1, 34, false, 10, 5)];
    assert!(Trade::create_trades(&[], &some).is_empty());
    assert!(Trade::create_trades(&some, &[]).is_empty());
}

#[test]
fn between_gives_the_margin_in_hundredths_of_the_price_unit() {
    let sell = order(1, 34, false, 1000, 5);
    let buy = order(2, 34, true, 2000, 8);
    let trade = Trade::between(&sell, &buy).unwrap();
    assert_eq!(trade.quantity, 5);
    assert_eq!(trade.unit_margin, 2000 * 92 - 1000 * 100);
    assert_eq!(trade.gross_profit(), Some(5 * 84000));
}

#[test]
fn gross_profit_out_of_range_is_none() {
    let sell = order(1, 34, false, 0, u64::MAX);
    let buy = order(2, 34, true, u64::MAX, u64::MAX);
    let trade = Trade::between(&sell, &buy).unwrap();
    assert_eq!(trade.quantity, u64::MAX);
    assert_eq!(trade.unit_margin, (u64::MAX as u128) * 92);
    assert_eq!(trade.gross_profit(), None);
}

#[test]
fn new_keeps_what_it_is_given() {
    let sell = order(1, 34, false, 10, 5);
    let buy = order(2, 34, true, 100, 5);
    let trade = Trade::new(&sell, &buy, 4, 77);
    assert_eq!(trade.from, &sell);
    assert_eq!(trade.to, &buy);
    assert_eq!(trade.quantity, 4);
    assert_eq!(trade.unit_margin, 77);
}

#[test]
fn split_parts_sells_from_buys_in_order() {
    let listing = [
        order(1, 34, false, 10, 5),
        order(2, 34, true, 100, 5),
        order(3, 35, true, 100, 5),
        order(4, 35, false, 10, 5),
    ];
    let (sells, buys) = split_orders(&listing);
    let sell_ids: Vec<u64> = sells.iter().map(|o| o.order_id).collect();
    let buy_ids: Vec<u64> = buys.iter().map(|o| o.order_id).collect();
    assert_eq!(sell_ids, vec![1, 4]);
    assert_eq!(buy_ids, vec![2, 3]);
    assert_eq!(sells[0], listing[0]);
}

#[test]
fn a_trade_as_an_item_for_the_planner() {
    let sell = order(1, 34, false, 1000, 5);
    let buy = order(2, 34, true, 2000, 8);
    let trade = Trade::between(&sell, &buy).unwrap();
    let item = rust_backend::market::trade::resource_item(&trade, 250).unwrap();
    assert_eq!(item.profit, 840);
    assert_eq!(item.cost, 1000);
    assert_eq!(item.cargo, 250);
    assert_eq!(item.quantity, 5);
    let rounded = Trade::new(&sell, &buy, 3, 199);
    assert_eq!(rust_backend::market::trade::resource_item(&rounded, 1).unwrap().profit, 1);
}

#[test]
fn a_margin_beyond_the_planners_range_gives_no_item() {
    let sell = order(1, 34, false, 0, 5);
    let buy = order(2, 34, true, u64::MAX, 8);
    let trade = Trade::new(&sell, &buy, 5, u128::MAX);
    assert!(rust_backend::market::trade::resource_item(&trade, 1).is_none());
    let edge = Trade::new(&sell, &buy, 5, (u64::MAX as u128) * 100 + 99);
    assert_eq!(rust_backend::market::trade::resource_item(&edge, 1).unwrap().profit, u64::MAX);
}
