//! Matching a new order against one side of the book.
use vstd::prelude::*;
use crate::order::{Order, TYPE_OF_ORDER, amount_sum, with_price, all_open, all_of_type, lemma_amount_sum_push};
use crate::sorting::{goes_after, sorted_by_price};

verus! {

/// One trade between the new order and a resting order, with both quantities
/// as they stood just before the trade (what the engine prints and logs).
#[derive(PartialEq, Eq, Structural, Clone, Copy, Debug)]
pub struct Fill {
    pub new_price: i64,
    pub new_amount: u32,
    pub resting_price: i64,
    pub resting_amount: u32,
}

/// A resting order trades with a new order at price `p` when it stands at
/// exactly that price and still has a quantity.
pub open spec fn trades_with(o: Order, p: i64) -> bool {
    o.price == p && o.amount != 0
}

/// One pass of matching over `book`, front to back: the orders that stay (with
/// what is left of them), the quantity left of the new order, and the trades.
/// Each resting order at the new order's price with a quantity trades
/// `min(its quantity, what is left of the new order)`; one that is used up
/// leaves the book.
pub open spec fn scan(book: Seq<Order>, new_order: Order) -> (Seq<Order>, u32, Seq<Fill>)
    decreases book.len(),
{
    if book.len() == 0 {
        (Seq::empty(), new_order.amount, Seq::empty())
    } else {
        let prev = scan(book.drop_last(), new_order);
        let o = book.last();
        if trades_with(o, new_order.price) {
            let f = Fill {
                new_price: new_order.price,
                new_amount: prev.1,
                resting_price: o.price,
                resting_amount: o.amount,
            };
            if o.amount > prev.1 {
                (
                    prev.0.push(
                        Order {
                            order_type: o.order_type,
                            price: o.price,
                            amount: (o.amount - prev.1) as u32,
                        },
                    ),
                    0u32,
                    prev.2.push(f),
                )
            } else {
                (prev.0, (prev.1 - o.amount) as u32, prev.2.push(f))
            }
        } else {
            (prev.0.push(o), prev.1, prev.2)
        }
    }
}

/// What `matching` makes of `book` and `new_order`: nothing happens to an order
/// with no quantity; otherwise one pass of `scan`.
pub open spec fn match_outcome(book: Seq<Order>, new_order: Order) -> (Seq<Order>, u32, Seq<Fill>) {
    if new_order.amount == 0 {
        (book, 0u32, Seq::empty())
    } else {
        scan(book, new_order)
    }
}

/// Matches `new_order` against the resting orders of the other side, front to
/// back: it trades with each order at exactly its price that has a quantity, a
/// resting order that is used up leaves the book, and `new_order` keeps what is
/// left of it. Returns the trades, for the caller to print and log. An order with
/// no quantity matches nothing, and on an empty book nothing happens.
pub fn matching(orders: &mut Vec<Order>, new_order: &mut Order) -> (fills: Vec<Fill>)
    ensures
        final(orders)@ == match_outcome(old(orders)@, *old(new_order)).0,
        final(new_order).amount == match_outcome(old(orders)@, *old(new_order)).1,
        final(new_order).price == old(new_order).price,
        final(new_order).order_type == old(new_order).order_type,
        fills@ == match_outcome(old(orders)@, *old(new_order)).2,
        old(orders)@.len() == 0 ==> final(orders)@ == old(orders)@ && *final(new_order) == *old(
            new_order,
        ) && fills@.len() == 0,
{
    let mut fills: Vec<Fill> = Vec::new();
    if new_order.amount == 0 {
        return fills;
    }
    let ghost book = orders@;
    let ghost start = *new_order;
    let mut kept: Vec<Order> = Vec::new();
    let n = orders.len();
    proof {
        assert(book.take(0) =~= Seq::<Order>::empty());
    }
    for i in 0..n
        invariant
            n == orders.len(),
            orders@ == book,
            start.amount != 0,
            new_order.price == start.price,
            new_order.order_type == start.order_type,
            scan(book.take(i as int), start).0 == kept@,
            scan(book.take(i as int), start).1 == new_order.amount,
            scan(book.take(i as int), start).2 == fills@,
    {
        let o = orders[i];
        proof {
            assert(book.take(i + 1).drop_last() =~= book.take(i as int));
            assert(book.take(i + 1).last() == o);
        }
        if o.price == new_order.price && o.amount != 0 {
            fills.push(
                Fill {
                    new_price: new_order.price,
                    new_amount: new_order.amount,
                    resting_price: o.price,
                    resting_amount: o.amount,
                },
            );
            if o.amount > new_order.amount {
                kept.push(
                    Order {
                        order_type: o.order_type,
                        price: o.price,
                        amount: o.amount - new_order.amount,
                    },
                );
                new_order.amount = 0;
            } else {
                new_order.amount = new_order.amount - o.amount;
            }
        } else {
            kept.push(o);
        }
    }
    proof {
        assert(book.take(n as int) =~= book);
        if n == 0 {
            assert(kept@ =~= book);
        }
    }
    *orders = kept;
    fills
}

/// What is left of the new order never grows.
pub proof fn lemma_scan_remaining(book: Seq<Order>, new_order: Order)
    ensures
        scan(book, new_order).1 <= new_order.amount,
    decreases book.len(),
{
    if book.len() > 0 {
        lemma_scan_remaining(book.drop_last(), new_order);
    }
}

/// The quantity the new order trades equals the quantity taken from the book.
pub proof fn law_matching_conserves_quantity(book: Seq<Order>, new_order: Order)
    ensures
        new_order.amount - match_outcome(book, new_order).1 == amount_sum(book) - amount_sum(
            match_outcome(book, new_order).0,
        ),
    decreases book.len(),
{
    if new_order.amount != 0 && book.len() > 0 {
        let prev = scan(book.drop_last(), new_order);
        law_matching_conserves_quantity(book.drop_last(), new_order);
        let o = book.last();
        if trades_with(o, new_order.price) {
            if o.amount > prev.1 {
                lemma_amount_sum_push(
                    prev.0,
                    Order { order_type: o.order_type, price: o.price, amount: (o.amount - prev.1) as u32 },
                );
            }
        } else {
            lemma_amount_sum_push(prev.0, o);
        }
    }
}

/// The quantity a trade exchanges: the smaller of the two quantities it met.
pub open spec fn fill_quantity(f: Fill) -> int {
    if f.resting_amount < f.new_amount {
        f.resting_amount as int
    } else {
        f.new_amount as int
    }
}

/// The quantity exchanged by a sequence of trades.
pub open spec fn traded_quantity(fills: Seq<Fill>) -> int
    decreases fills.len(),
{
    if fills.len() == 0 {
        0
    } else {
        traded_quantity(fills.drop_last()) + fill_quantity(fills.last())
    }
}

/// What the new order loses is exactly what its trades exchange.
pub proof fn law_matching_trades_what_the_order_loses(book: Seq<Order>, new_order: Order)
    ensures
        new_order.amount - match_outcome(book, new_order).1 == traded_quantity(
            match_outcome(book, new_order).2,
        ),
    decreases book.len(),
{
    if new_order.amount == 0 {
        assert(traded_quantity(Seq::<Fill>::empty()) == 0);
    } else if book.len() == 0 {
        assert(traded_quantity(Seq::<Fill>::empty()) == 0);
    } else {
        law_matching_trades_what_the_order_loses(book.drop_last(), new_order);
        let prev = scan(book.drop_last(), new_order);
        let o = book.last();
        if trades_with(o, new_order.price) {
            let f = Fill {
                new_price: new_order.price,
                new_amount: prev.1,
                resting_price: o.price,
                resting_amount: o.amount,
            };
            assert(prev.2.push(f).drop_last() =~= prev.2);
            assert(prev.2.push(f).last() == f);
        }
    }
}

/// Orders at any other price than the new order's stay as they were, in the
/// same order.
pub proof fn law_matching_keeps_other_prices(book: Seq<Order>, new_order: Order, q: i64)
    requires
        q != new_order.price,
    ensures
        with_price(match_outcome(book, new_order).0, q) == with_price(book, q),
    decreases book.len(),
{
    if new_order.amount != 0 && book.len() > 0 {
        let prev = scan(book.drop_last(), new_order);
        law_matching_keeps_other_prices(book.drop_last(), new_order, q);
        let o = book.last();
        if trades_with(o, new_order.price) {
            if o.amount > prev.1 {
                let o2 = Order { order_type: o.order_type, price: o.price, amount: (o.amount - prev.1) as u32 };
                assert(prev.0.push(o2).drop_last() =~= prev.0);
            }
        } else {
            assert(prev.0.push(o).drop_last() =~= prev.0);
        }
    }
}

/// Something is left of the new order only when no resting order at its price
/// with a quantity is left in the book.
pub proof fn law_matching_leaves_remainder_only_when_exhausted(book: Seq<Order>, new_order: Order)
    ensures
        match_outcome(book, new_order).1 > 0 ==> forall|k: int|
            0 <= k < match_outcome(book, new_order).0.len() ==> !trades_with(
                #[trigger] match_outcome(book, new_order).0[k],
                new_order.price,
            ),
    decreases book.len(),
{
    if new_order.amount != 0 && book.len() > 0 {
        let prev = scan(book.drop_last(), new_order);
        law_matching_leaves_remainder_only_when_exhausted(book.drop_last(), new_order);
        lemma_scan_remaining(book.drop_last(), new_order);
        let cur = scan(book, new_order);
        let o = book.last();
        if cur.1 > 0 {
            assert(prev.1 > 0);
            assert(forall|k: int| 0 <= k < prev.0.len() ==> !trades_with(#[trigger] prev.0[k], new_order.price));
            assert forall|k: int| 0 <= k < cur.0.len() implies !trades_with(
                #[trigger] cur.0[k],
                new_order.price,
            ) by {
                if k < prev.0.len() {
                    assert(cur.0[k] == prev.0[k]);
                } else {
                    assert(!trades_with(o, new_order.price));
                    assert(cur.0[k] == o);
                }
            }
        }
    }
}

/// A trade at price `p` with a resting order that had a quantity.
pub open spec fn fill_at_price(f: Fill, p: i64) -> bool {
    f.new_price == p && f.resting_price == p && f.resting_amount > 0
}

/// Every trade is at the new order's price, between the new order and a resting
/// order at that price.
pub proof fn law_matching_trades_at_new_price(book: Seq<Order>, new_order: Order)
    ensures
        forall|k: int|
            0 <= k < match_outcome(book, new_order).2.len() ==> fill_at_price(
                #[trigger] match_outcome(book, new_order).2[k],
                new_order.price,
            ),
    decreases book.len(),
{
    if new_order.amount != 0 && book.len() > 0 {
        law_matching_trades_at_new_price(book.drop_last(), new_order);
        let prev = scan(book.drop_last(), new_order).2;
        let res = scan(book, new_order).2;
        assert forall|k: int| 0 <= k < res.len() implies fill_at_price(
            #[trigger] res[k],
            new_order.price,
        ) by {
            if k < prev.len() {
                assert(res[k] == prev[k]);
                assert(fill_at_price(match_outcome(book.drop_last(), new_order).2[k], new_order.price));
            }
        }
    }
}

/// The orders left are all found in the book at one of its prices: bounds on
/// the book's prices hold of them.
proof fn lemma_scan_price_bounds(book: Seq<Order>, new_order: Order, lo: i64, hi: i64)
    requires
        forall|j: int| 0 <= j < book.len() ==> lo <= #[trigger] book[j].price <= hi,
    ensures
        forall|k: int|
            0 <= k < scan(book, new_order).0.len() ==> lo <= #[trigger] scan(book, new_order).0[k].price
                <= hi,
    decreases book.len(),
{
    if book.len() > 0 {
        lemma_scan_price_bounds(book.drop_last(), new_order, lo, hi);
    }
}

/// Matching keeps a side sorted by price.
pub proof fn law_matching_keeps_sorted(book: Seq<Order>, new_order: Order, descending: bool)
    requires
        sorted_by_price(book, descending),
    ensures
        sorted_by_price(match_outcome(book, new_order).0, descending),
    decreases book.len(),
{
    if new_order.amount != 0 && book.len() > 0 {
        let front = book.drop_last();
        let prev = scan(front, new_order);
        let o = book.last();
        assert(sorted_by_price(front, descending)) by {
            assert forall|i: int, j: int| 0 <= i < j < front.len() implies !goes_after(
                #[trigger] front[i],
                #[trigger] front[j],
                descending,
            ) by {
                assert(front[i] == book[i] && front[j] == book[j]);
            }
        }
        law_matching_keeps_sorted(front, new_order, descending);
        if descending {
            assert forall|j: int| 0 <= j < front.len() implies o.price <= #[trigger] front[j].price
                <= i64::MAX by {
                assert(front[j] == book[j]);
                assert(!goes_after(book[j], book[book.len() - 1], descending));
            }
            lemma_scan_price_bounds(front, new_order, o.price, i64::MAX);
        } else {
            assert forall|j: int| 0 <= j < front.len() implies i64::MIN <= #[trigger] front[j].price
                <= o.price by {
                assert(front[j] == book[j]);
                assert(!goes_after(book[j], book[book.len() - 1], descending));
            }
            lemma_scan_price_bounds(front, new_order, i64::MIN, o.price);
        }
        let res = scan(book, new_order).0;
        assert forall|i: int, j: int| 0 <= i < j < res.len() implies !goes_after(
            #[trigger] res[i],
            #[trigger] res[j],
            descending,
        ) by {
            if j < prev.0.len() {
                assert(res[i] == prev.0[i] && res[j] == prev.0[j]);
            } else {
                assert(res[i] == prev.0[i]);
                assert(res[j].price == o.price);
            }
        }
    }
}

/// Matching leaves no order without a quantity in a book that had none.
pub proof fn law_matching_keeps_orders_open(book: Seq<Order>, new_order: Order)
    requires
        all_open(book),
    ensures
        all_open(match_outcome(book, new_order).0),
    decreases book.len(),
{
    if new_order.amount != 0 && book.len() > 0 {
        let front = book.drop_last();
        assert(all_open(front)) by {
            assert forall|j: int| 0 <= j < front.len() implies #[trigger] front[j].amount > 0 by {
                assert(front[j] == book[j]);
            }
        }
        law_matching_keeps_orders_open(front, new_order);
        assert(book[book.len() - 1] == book.last());
    }
}

/// Matching keeps every order of a side on that side.
pub proof fn law_matching_keeps_side(book: Seq<Order>, new_order: Order, t: TYPE_OF_ORDER)
    requires
        all_of_type(book, t),
    ensures
        all_of_type(match_outcome(book, new_order).0, t),
    decreases book.len(),
{
    if new_order.amount != 0 && book.len() > 0 {
        let front = book.drop_last();
        assert(all_of_type(front, t)) by {
            assert forall|j: int| 0 <= j < front.len() implies #[trigger] front[j].order_type == t by {
                assert(front[j] == book[j]);
            }
        }
        law_matching_keeps_side(front, new_order, t);
        assert(book[book.len() - 1] == book.last());
    }
}

/// The quantity offered at price `p`: the sum over the orders at `p`.
pub open spec fn supply_at(book: Seq<Order>, p: i64) -> int {
    amount_sum(with_price(book, p))
}

proof fn lemma_amount_sum_nonneg(s: Seq<Order>)
    ensures
        amount_sum(s) >= 0,
    decreases s.len(),
{
    if s.len() > 0 {
        lemma_amount_sum_nonneg(s.drop_last());
    }
}

/// Matching in closed form: with `a` the new order's quantity and `S` the
/// quantity offered at its price, what is left of the new order is `max(0, a - S)`
/// and what is left offered at that price is `max(0, S - a)`.
pub proof fn law_matching_closed_form(book: Seq<Order>, new_order: Order)
    ensures
        match_outcome(book, new_order).1 == if new_order.amount > supply_at(book, new_order.price) {
            new_order.amount - supply_at(book, new_order.price)
        } else {
            0
        },
        new_order.amount != 0 ==> supply_at(match_outcome(book, new_order).0, new_order.price) == if supply_at(
            book,
            new_order.price,
        ) > new_order.amount {
            supply_at(book, new_order.price) - new_order.amount
        } else {
            0
        },
    decreases book.len(),
{
    let p = new_order.price;
    let a = new_order.amount as int;
    if new_order.amount == 0 {
        lemma_amount_sum_nonneg(with_price(book, p));
    } else if book.len() == 0 {
        assert(with_price(book, p) == Seq::<Order>::empty());
        assert(amount_sum(Seq::<Order>::empty()) == 0);
    } else {
        let front = book.drop_last();
        let o = book.last();
        law_matching_closed_form(front, new_order);
        lemma_amount_sum_nonneg(with_price(front, p));
        let prev = scan(front, new_order);
        if o.price == p {
            lemma_amount_sum_push(with_price(front, p), o);
            if o.amount != 0 {
                if o.amount > prev.1 {
                    let o2 = Order { order_type: o.order_type, price: o.price, amount: (o.amount - prev.1) as u32 };
                    assert(prev.0.push(o2).drop_last() =~= prev.0);
                    lemma_amount_sum_push(with_price(prev.0, p), o2);
                }
            } else {
                assert(prev.0.push(o).drop_last() =~= prev.0);
                lemma_amount_sum_push(with_price(prev.0, p), o);
            }
        } else {
            assert(prev.0.push(o).drop_last() =~= prev.0);
        }
    }
}

} // verus!
