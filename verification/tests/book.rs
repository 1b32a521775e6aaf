use seosae::order::{levels_fit_u32, tuple_sum_by_key, Order, TYPE_OF_ORDER};
use seosae::orderbook::{OrderBook, STARTING_HIGHEST_BID, STARTING_LOWEST_ASK};
use seosae::sorting::sort_by_price;

fn o(order_type: TYPE_OF_ORDER, price: i64, amount: u32) -> Order {
    Order { order_type, price, amount }
}

fn s(price: i64, amount: u32) -> Order {
    o(TYPE_OF_ORDER::SELL, price, amount)
}

fn b(price: i64, amount: u32) -> Order {
    o(TYPE_OF_ORDER::BUY, price, amount)
}

#[test]
fn new_book_is_empty_with_starting_prices() {
    let book = OrderBook::new();
    assert!(book.buy_orders.is_empty());
    assert!(book.sell_orders.is_empty());
    assert_eq!(book.lowest_ask, 11760);
    assert_eq!(book.highest_bid, 11740);
    assert_eq!((STARTING_LOWEST_ASK, STARTING_HIGHEST_BID), (11760, 11740));
}

#[test]
fn sort_ascending_is_stable() {
    let mut v = vec![s(1870, 1), s(1800, 2), s(1870, 3), s(1780, 4), s(1800, 5)];
    sort_by_price(&mut v, false);
    assert_eq!(v, vec![s(1780, 4), s(1800, 2), s(1800, 5), s(1870, 1), s(1870, 3)]);
}

#[test]
fn sort_descending_is_stable() {
    let mut v = vec![b(1810, 1), b(1840, 2), b(1810, 3), b(1720, 4)];
    sort_by_price(&mut v, true);
    assert_eq!(v, vec![b(1840, 2), b(1810, 1), b(1810, 3), b(1720, 4)]);
    let mut empty: Vec<Order> = vec![];
    sort_by_price(&mut empty, true);
    assert!(empty.is_empty());
}

#[test]
fn submit_rests_an_order_that_finds_no_match() {
    let mut book = OrderBook::new();
    let fills = book.submit(b(1810, 80));
    assert!(fills.is_empty());
    let fills = book.submit(b(1840, 10));
    assert!(fills.is_empty());
    book.submit(s(1870, 100));
    book.submit(s(1800, 50));
    assert_eq!(book.buy_orders, vec![b(1840, 10), b(1810, 80)]);
    assert_eq!(book.sell_orders, vec![s(1800, 50), s(1870, 100)]);
    assert_eq!(book.highest_bid, 1840);
    assert_eq!(book.lowest_ask, 1800);
}

#[test]
fn submit_matches_only_at_the_same_price() {
    let mut book = OrderBook::new();
    book.submit(s(1870, 100));
    book.submit(s(1800, 50));
    // A buy at 18.10 does not trade with the sell at 18.00: only equal prices match.
    let fills = book.submit(b(1810, 30));
    assert!(fills.is_empty());
    let fills = book.submit(b(1800, 70));
    assert_eq!(fills.len(), 1);
    assert_eq!(book.sell_orders, vec![s(1870, 100)]);
    assert_eq!(book.buy_orders, vec![b(1810, 30), b(1800, 20)]);
    assert_eq!(book.lowest_ask, 1870);
    assert_eq!(book.highest_bid, 1810);
}

#[test]
fn submit_keeps_last_best_price_when_a_side_empties() {
    let mut book = OrderBook::new();
    book.submit(s(1800, 50));
    assert_eq!(book.lowest_ask, 1800);
    let fills = book.submit(b(1800, 50));
    assert_eq!(fills.len(), 1);
    assert!(book.sell_orders.is_empty());
    assert!(book.buy_orders.is_empty());
    assert_eq!(book.lowest_ask, 1800);
    assert_eq!(book.highest_bid, STARTING_HIGHEST_BID);
}

#[test]
fn submit_of_sell_order_trades_with_bids() {
    let mut book = OrderBook::new();
    book.submit(b(1800, 10));
    book.submit(b(1800, 20));
    let fills = book.submit(s(1800, 25));
    assert_eq!(fills.len(), 2);
    assert_eq!(book.buy_orders, vec![b(1800, 5)]);
    assert!(book.sell_orders.is_empty());
}

#[test]
fn process_order_pushes_before_matching_and_does_not_sort() {
    let mut book = OrderBook::new();
    book.buy_orders = vec![b(1700, 5), b(1800, 10)];
    let fills = book.process_order(s(1800, 4));
    assert_eq!(fills.len(), 1);
    assert_eq!(book.sell_orders, vec![s(1800, 4)]);
    assert_eq!(book.buy_orders, vec![b(1700, 5), b(1800, 6)]);
    assert_eq!(book.lowest_ask, STARTING_LOWEST_ASK);
    book.refresh();
    assert_eq!(book.buy_orders, vec![b(1800, 6), b(1700, 5)]);
    assert_eq!(book.lowest_ask, 1800);
    assert_eq!(book.highest_bid, 1800);
}

#[test]
fn tuple_sum_by_key_sums_neighbouring_equal_prices() {
    let book = vec![s(1020, 800), s(1020, 900), s(1100, 5), s(1020, 1)];
    assert_eq!(tuple_sum_by_key(&book), vec![s(1020, 1700), s(1100, 5), s(1020, 1)]);
    assert_eq!(tuple_sum_by_key(&[]), vec![]);
    assert_eq!(tuple_sum_by_key(&[b(5, 7)]), vec![b(5, 7)]);
}

#[test]
fn tuple_sum_by_key_keeps_total() {
    let book = vec![b(1840, 10), b(1840, 20), b(1810, 80), b(1810, 1), b(1720, 250)];
    let levels = tuple_sum_by_key(&book);
    let before: u32 = book.iter().map(|o| o.amount).sum();
    let after: u32 = levels.iter().map(|o| o.amount).sum();
    assert_eq!(before, after);
    assert_eq!(levels, vec![b(1840, 30), b(1810, 81), b(1720, 250)]);
}

#[test]
fn levels_fit_when_each_run_fits() {
    assert!(levels_fit_u32(&[]));
    assert!(levels_fit_u32(&[s(1, u32::MAX), s(2, u32::MAX)]));
    assert!(!levels_fit_u32(&[s(1, u32::MAX), s(1, 1)]));
    assert!(levels_fit_u32(&[s(1, u32::MAX - 1), s(1, 1), s(2, 5)]));
    assert!(!levels_fit_u32(&[s(2, 5), s(1, u32::MAX - 1), s(1, 1), s(1, 1)]));
    assert_eq!(
        tuple_sum_by_key(&[s(1, u32::MAX - 1), s(1, 1), s(2, 5)]),
        vec![s(1, u32::MAX), s(2, 5)]
    );
}

#[test]
fn sorting_a_sorted_side_changes_nothing() {
    let mut v = vec![s(1870, 1), s(1800, 2), s(1870, 3), s(1780, 4), s(1800, 5)];
    sort_by_price(&mut v, false);
    let once = v.clone();
    sort_by_price(&mut v, false);
    assert_eq!(v, once);
}

#[test]
fn levels_of_a_sorted_side_hold_all_of_each_price() {
    let mut v = vec![s(1870, 1), s(1800, 2), s(1870, 3), s(1780, 4), s(1800, 5)];
    sort_by_price(&mut v, false);
    let levels = tuple_sum_by_key(&v);
    for level in &levels {
        let at_price: u32 = v.iter().filter(|o| o.price == level.price).map(|o| o.amount).sum();
        assert_eq!(level.amount, at_price);
    }
    for pair in levels.windows(2) {
        assert_ne!(pair[0].price, pair[1].price);
        assert!(pair[0].price < pair[1].price);
    }
    let mut bids = vec![b(1810, 1), b(1840, 2), b(1810, 3), b(1720, 4)];
    sort_by_price(&mut bids, true);
    let bid_levels = tuple_sum_by_key(&bids);
    for pair in bid_levels.windows(2) {
        assert!(pair[0].price > pair[1].price);
    }
    assert_eq!(levels, vec![s(1780, 4), s(1800, 7), s(1870, 4)]);
}

#[test]
fn best_prices_bound_the_sides_after_submits() {
    let mut book = OrderBook::new();
    for (t, p, a) in [(1, 1800, 5), (0, 1900, 3), (1, 1750, 2), (0, 1850, 9), (1, 1850, 4), (0, 1750, 1)] {
        let order_type = if t == 1 { TYPE_OF_ORDER::BUY } else { TYPE_OF_ORDER::SELL };
        book.submit(o(order_type, p, a));
        for x in &book.sell_orders {
            assert!(book.lowest_ask <= x.price && x.amount > 0 && x.order_type == TYPE_OF_ORDER::SELL);
        }
        for x in &book.buy_orders {
            assert!(book.highest_bid >= x.price && x.amount > 0 && x.order_type == TYPE_OF_ORDER::BUY);
        }
    }
    assert_eq!(book.sell_orders, vec![s(1850, 5), s(1900, 3)]);
    assert_eq!(book.buy_orders, vec![b(1800, 5), b(1750, 1)]);
}

#[test]
fn process_order_against_an_empty_side_rests() {
    let mut book = OrderBook::new();
    let fills = book.process_order(s(1870, 100));
    assert!(fills.is_empty());
    assert_eq!(book.sell_orders, vec![s(1870, 100)]);
    assert!(book.buy_orders.is_empty());
    let fills = book.process_order(b(1870, 30));
    assert_eq!(fills.len(), 1);
    assert_eq!(book.buy_orders, vec![b(1870, 30)]);
    assert_eq!(book.sell_orders, vec![s(1870, 70)]);
}

#[test]
fn order_equality_is_field_equality() {
    let x = s(1870, 100);
    let y = s(1870, 100);
    assert!(x == x);
    assert_eq!(x == y, y == x);
    assert!(x != b(1870, 100));
    assert!(x != s(1871, 100));
    assert!(x != s(1870, 99));
}
