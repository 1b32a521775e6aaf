use seosae::matching::matching;
use seosae::order::{Order, TYPE_OF_ORDER};

fn cents(price: f64) -> i64 {
    (price * 100.0).round() as i64
}

fn sell(price: f64, amount: u32) -> Order {
    Order { order_type: TYPE_OF_ORDER::SELL, price: cents(price), amount }
}

fn buy(price: f64, amount: u32) -> Order {
    Order { order_type: TYPE_OF_ORDER::BUY, price: cents(price), amount }
}

#[test]
fn it_finds_correct_matches_order_is_bigger_than_supply() {
    let amount_to_buy = 600;
    let start_amount = 100;

    let mut sell_orders = vec![sell(18.0, 100), sell(18.7, start_amount), sell(17.8, 150)];
    let mut buy_orders = vec![buy(18.1, 80), buy(18.4, 10), buy(17.2, 250)];

    let mut new_buy_order = buy(18.7, amount_to_buy);

    matching(&mut sell_orders, &mut new_buy_order);
    if new_buy_order.amount != 0 {
        buy_orders.push(new_buy_order);
    }

    assert_eq!(sell_orders, vec![sell(18.0, 100), sell(17.8, 150)]);
    assert_eq!(
        buy_orders,
        vec![buy(18.1, 80), buy(18.4, 10), buy(17.2, 250), buy(18.7, amount_to_buy - start_amount)]
    );
}

#[test]
fn it_finds_correct_matches_order_is_smaller_than_supply() {
    let amount_to_buy = 773;
    let start_amount = 1090;

    let mut sell_orders = vec![sell(18.0, 100), sell(18.7, start_amount), sell(17.8, 150)];
    let mut buy_orders = vec![buy(18.1, 80), buy(18.4, 10), buy(17.2, 250)];

    let mut new_buy_order = buy(18.7, amount_to_buy);

    matching(&mut sell_orders, &mut new_buy_order);
    if new_buy_order.amount != 0 {
        buy_orders.push(new_buy_order);
    }

    assert_eq!(
        sell_orders,
        vec![sell(18.0, 100), sell(18.7, start_amount - amount_to_buy), sell(17.8, 150)]
    );
    assert_eq!(buy_orders, vec![buy(18.1, 80), buy(18.4, 10), buy(17.2, 250)]);
}

#[test]
fn it_finds_correct_matches_order_is_equal_to_supply() {
    let amount_to_buy = 70;
    let start_amount = 70;

    let mut sell_orders = vec![sell(18.0, 100), sell(18.7, start_amount), sell(17.8, 150)];
    let mut buy_orders = vec![buy(18.1, 80), buy(18.4, 10), buy(17.2, 250)];

    let mut new_buy_order = buy(18.7, amount_to_buy);

    matching(&mut sell_orders, &mut new_buy_order);
    if new_buy_order.amount != 0 {
        buy_orders.push(new_buy_order);
    }

    assert_eq!(sell_orders, vec![sell(18.0, 100), sell(17.8, 150)]);
    assert_eq!(buy_orders, vec![buy(18.1, 80), buy(18.4, 10), buy(17.2, 250)]);
}

#[test]
fn matching_works_for_the_only_order_in_orderbook_order_smaller_than_supply() {
    let start_amount = 1170;
    let amount_to_buy = 860;
    let mut sell_orders = vec![sell(18.0, start_amount)];
    let mut buy_orders: Vec<Order> = vec![];

    let mut new_buy_order = buy(18.0, amount_to_buy);

    matching(&mut sell_orders, &mut new_buy_order);
    if new_buy_order.amount != 0 {
        buy_orders.push(new_buy_order);
    }

    assert_eq!(buy_orders, vec![]);
    assert_eq!(sell_orders, vec![sell(18.0, start_amount - amount_to_buy)]);
}

#[test]
fn matching_works_for_the_only_order_in_orderbook_order_is_equal_to_supply() {
    let start_amount = 456;
    let amount_to_buy = 456;
    let mut sell_orders = vec![sell(18.0, start_amount)];
    let mut buy_orders: Vec<Order> = vec![];

    let mut new_buy_order = buy(18.0, amount_to_buy);

    matching(&mut sell_orders, &mut new_buy_order);
    if new_buy_order.amount != 0 {
        buy_orders.push(new_buy_order);
    }

    assert_eq!(buy_orders, vec![]);
    assert_eq!(sell_orders, vec![]);
}

#[test]
fn matching_works_for_the_only_order_in_orderbook_order_bigger_than_supply() {
    let start_amount = 70;
    let amount_to_buy = 80;
    let mut sell_orders = vec![sell(18.0, start_amount)];
    let mut buy_orders: Vec<Order> = vec![];

    let mut new_buy_order = buy(18.0, amount_to_buy);

    matching(&mut sell_orders, &mut new_buy_order);
    if new_buy_order.amount != 0 {
        buy_orders.push(new_buy_order);
    }

    assert_eq!(sell_orders, vec![]);
    assert_eq!(buy_orders, vec![buy(18.0, amount_to_buy - start_amount)]);
}

#[test]
fn it_finds_correct_matches_multiple_order_smaller_than_last() {
    let amount_to_buy = 70;
    let start_amount = 20;

    let mut sell_orders = vec![
        sell(18.0, 100),
        sell(18.7, start_amount),
        sell(18.7, start_amount),
        sell(18.7, start_amount),
        sell(18.7, start_amount),
        sell(17.8, 150),
    ];
    let mut buy_orders = vec![buy(18.1, 80), buy(18.4, 10), buy(17.2, 250)];

    let mut new_buy_order = buy(18.7, amount_to_buy);

    matching(&mut sell_orders, &mut new_buy_order);
    if new_buy_order.amount != 0 {
        buy_orders.push(new_buy_order);
    }

    assert_eq!(
        sell_orders,
        vec![sell(18.0, 100), sell(18.7, 4 * start_amount - amount_to_buy), sell(17.8, 150)]
    );
    assert_eq!(buy_orders, vec![buy(18.1, 80), buy(18.4, 10), buy(17.2, 250)]);
}

#[test]
fn it_finds_correct_matches_multiple_order_bigger_than_last() {
    let amount_to_buy = 70;
    let start_amount = 20;

    let mut sell_orders = vec![
        sell(18.0, 100),
        sell(18.7, start_amount),
        sell(18.7, start_amount),
        sell(18.7, start_amount),
        sell(17.8, 150),
    ];
    let mut buy_orders = vec![buy(18.1, 80), buy(18.4, 10), buy(17.2, 250)];

    let mut new_buy_order = buy(18.7, amount_to_buy);

    matching(&mut sell_orders, &mut new_buy_order);
    if new_buy_order.amount != 0 {
        buy_orders.push(new_buy_order);
    }

    assert_eq!(sell_orders, vec![sell(18.0, 100), sell(17.8, 150)]);
    assert_eq!(
        buy_orders,
        vec![buy(18.1, 80), buy(18.4, 10), buy(17.2, 250), buy(18.7, amount_to_buy - 3 * start_amount)]
    );
}

#[test]
fn it_finds_correct_matches_multiple_order_equal_to_last() {
    let amount_to_buy = 60;
    let start_amount = 20;

    let mut sell_orders = vec![
        sell(18.0, 100),
        sell(18.7, start_amount),
        sell(18.7, start_amount),
        sell(18.7, start_amount),
        sell(17.8, 150),
    ];
    let mut buy_orders = vec![buy(18.1, 80), buy(18.4, 10), buy(17.2, 250)];

    let mut new_buy_order = buy(18.7, amount_to_buy);

    matching(&mut sell_orders, &mut new_buy_order);
    if new_buy_order.amount != 0 {
        buy_orders.push(new_buy_order);
    }

    assert_eq!(sell_orders, vec![sell(18.0, 100), sell(17.8, 150)]);
    assert_eq!(buy_orders, vec![buy(18.1, 80), buy(18.4, 10), buy(17.2, 250)]);
}

#[test]
fn matching_reports_each_trade_with_quantities_before_it() {
    let mut sell_orders = vec![sell(18.7, 20), sell(18.0, 5), sell(18.7, 30), sell(18.7, 40)];
    let mut new_buy_order = buy(18.7, 45);
    let fills = matching(&mut sell_orders, &mut new_buy_order);
    assert_eq!(fills.len(), 3);
    assert_eq!((fills[0].new_price, fills[0].new_amount), (1870, 45));
    assert_eq!((fills[0].resting_price, fills[0].resting_amount), (1870, 20));
    assert_eq!((fills[1].new_amount, fills[1].resting_amount), (25, 30));
    // The order is filled by now; the last resting order at the price is still reported.
    assert_eq!((fills[2].new_amount, fills[2].resting_amount), (0, 40));
    assert_eq!(sell_orders, vec![sell(18.0, 5), sell(18.7, 5), sell(18.7, 40)]);
    assert_eq!(new_buy_order.amount, 0);
}

#[test]
fn matching_an_order_without_quantity_changes_nothing() {
    let mut sell_orders = vec![sell(18.7, 20)];
    let mut new_buy_order = buy(18.7, 0);
    let fills = matching(&mut sell_orders, &mut new_buy_order);
    assert!(fills.is_empty());
    assert_eq!(sell_orders, vec![sell(18.7, 20)]);
    let mut empty: Vec<Order> = vec![];
    assert!(matching(&mut empty, &mut new_buy_order).is_empty());
}

#[test]
fn matching_conserves_quantity() {
    let mut sell_orders = vec![sell(18.7, 20), sell(18.7, 30), sell(19.0, 10)];
    let before: u32 = sell_orders.iter().map(|o| o.amount).sum();
    let mut new_buy_order = buy(18.7, 35);
    matching(&mut sell_orders, &mut new_buy_order);
    let after: u32 = sell_orders.iter().map(|o| o.amount).sum();
    assert_eq!(35 - new_buy_order.amount, before - after);
    assert_eq!(new_buy_order.amount, 0);
    assert_eq!(sell_orders, vec![sell(18.7, 15), sell(19.0, 10)]);
}

#[test]
fn matching_skips_resting_orders_without_quantity() {
    let mut buy_orders = vec![buy(18.0, 0), buy(18.0, 10)];
    let mut new_sell_order = sell(18.0, 4);
    let fills = matching(&mut buy_orders, &mut new_sell_order);
    assert_eq!(fills.len(), 1);
    assert_eq!(buy_orders, vec![buy(18.0, 0), buy(18.0, 6)]);
}

#[test]
fn matching_on_an_empty_side_changes_nothing() {
    let mut sell_orders: Vec<Order> = vec![];
    let mut new_buy_order = buy(18.7, 50);
    let fills = matching(&mut sell_orders, &mut new_buy_order);
    assert!(fills.is_empty());
    assert!(sell_orders.is_empty());
    assert_eq!(new_buy_order, buy(18.7, 50));
}

#[test]
fn matching_follows_its_closed_form() {
    // 35 wanted at 18.7 against 20 + 30 offered: nothing left, 15 still offered.
    let mut sell_orders = vec![sell(18.7, 20), sell(19.0, 5), sell(18.7, 30)];
    let mut new_buy_order = buy(18.7, 35);
    matching(&mut sell_orders, &mut new_buy_order);
    assert_eq!(new_buy_order.amount, 0);
    let offered: u32 = sell_orders.iter().filter(|o| o.price == 1870).map(|o| o.amount).sum();
    assert_eq!(offered, 15);
    // 80 wanted against 50 offered: 30 left, nothing offered.
    let mut sell_orders = vec![sell(18.7, 20), sell(18.7, 30)];
    let mut new_buy_order = buy(18.7, 80);
    matching(&mut sell_orders, &mut new_buy_order);
    assert_eq!(new_buy_order.amount, 30);
    assert!(sell_orders.is_empty());
}
