//! The order book: the bid and ask sides, the best prices, and the steps the
//! engine takes for each new order.
use vstd::prelude::*;
use crate::order::{Order, TYPE_OF_ORDER, all_open, all_of_type, amount_sum, lemma_amount_sum_push};
use crate::matching::{
    Fill,
    matching,
    match_outcome,
    traded_quantity,
    law_matching_conserves_quantity,
    law_matching_trades_what_the_order_loses,
    law_matching_keeps_orders_open,
    law_matching_keeps_side,
};
use crate::sorting::{
    sort_by_price,
    is_stable_sort,
    sorted_by_price,
    goes_after,
    lemma_same_orders_keep_properties,
};

verus! {

/// Lowest ask, in cents, before any sell order has been seen.
pub const STARTING_LOWEST_ASK: i64 = 11760;

/// Highest bid, in cents, before any buy order has been seen.
pub const STARTING_HIGHEST_BID: i64 = 11740;

/// Both sides of the book and the best prices shown with them.
pub struct OrderBook {
    /// Buy orders, highest price first.
    pub buy_orders: Vec<Order>,
    /// Sell orders, lowest price first.
    pub sell_orders: Vec<Order>,
    /// Lowest ask in cents: the first sell order's price, or the last one known.
    pub lowest_ask: i64,
    /// Highest bid in cents: the first buy order's price, or the last one known.
    pub highest_bid: i64,
}

/// The best price of a side: its first order's, or `previous` when it is empty.
pub open spec fn best_price(side: Seq<Order>, previous: i64) -> i64 {
    if side.len() > 0 {
        side[0].price
    } else {
        previous
    }
}

/// What matching against the other side gives: nothing happens on an empty side.
pub open spec fn opposite_outcome(opposite: Seq<Order>, new_order: Order) -> (Seq<Order>, u32, Seq<Fill>) {
    if opposite.len() == 0 {
        (opposite, new_order.amount, Seq::empty())
    } else {
        match_outcome(opposite, new_order)
    }
}

/// A side with what is left of a new order added at its end, if anything is left.
pub open spec fn with_rest(own: Seq<Order>, new_order: Order, rest: u32) -> Seq<Order> {
    if rest != 0 {
        own.push(Order { order_type: new_order.order_type, price: new_order.price, amount: rest })
    } else {
        own
    }
}

/// The buy and sell sides after `new_order` has been matched and its rest added,
/// before sorting.
pub open spec fn submitted_sides(buy: Seq<Order>, sell: Seq<Order>, new_order: Order) -> (Seq<Order>, Seq<Order>) {
    if new_order.order_type == TYPE_OF_ORDER::BUY {
        let out = opposite_outcome(sell, new_order);
        (with_rest(buy, new_order, out.1), out.0)
    } else {
        let out = opposite_outcome(buy, new_order);
        (out.0, with_rest(sell, new_order, out.1))
    }
}

/// The trades that submitting `new_order` makes.
pub open spec fn submitted_fills(buy: Seq<Order>, sell: Seq<Order>, new_order: Order) -> Seq<Fill> {
    if new_order.order_type == TYPE_OF_ORDER::BUY {
        opposite_outcome(sell, new_order).2
    } else {
        opposite_outcome(buy, new_order).2
    }
}

impl OrderBook {
    /// The book is in order: buys highest first and sells lowest first, every
    /// order open and on its side, and the best prices those of the first orders.
    pub open spec fn wf(&self) -> bool {
        &&& sorted_by_price(self.buy_orders@, true)
        &&& sorted_by_price(self.sell_orders@, false)
        &&& all_open(self.buy_orders@)
        &&& all_open(self.sell_orders@)
        &&& all_of_type(self.buy_orders@, TYPE_OF_ORDER::BUY)
        &&& all_of_type(self.sell_orders@, TYPE_OF_ORDER::SELL)
        &&& self.sell_orders@.len() > 0 ==> self.lowest_ask == self.sell_orders@[0].price
        &&& self.buy_orders@.len() > 0 ==> self.highest_bid == self.buy_orders@[0].price
    }

    /// An empty book with the starting best prices.
    pub fn new() -> (book: OrderBook)
        ensures
            book.buy_orders@.len() == 0,
            book.sell_orders@.len() == 0,
            book.lowest_ask == STARTING_LOWEST_ASK,
            book.highest_bid == STARTING_HIGHEST_BID,
            book.wf(),
    {
        OrderBook {
            buy_orders: Vec::new(),
            sell_orders: Vec::new(),
            lowest_ask: STARTING_LOWEST_ASK,
            highest_bid: STARTING_HIGHEST_BID,
        }
    }

    /// Sorts both sides (buys highest first, sells lowest first, stable) and
    /// takes the best prices from their first orders.
    pub fn refresh(&mut self)
        ensures
            is_stable_sort(final(self).buy_orders@, old(self).buy_orders@, true),
            is_stable_sort(final(self).sell_orders@, old(self).sell_orders@, false),
            final(self).buy_orders@.to_multiset() == old(self).buy_orders@.to_multiset(),
            final(self).sell_orders@.to_multiset() == old(self).sell_orders@.to_multiset(),
            amount_sum(final(self).buy_orders@) == amount_sum(old(self).buy_orders@),
            amount_sum(final(self).sell_orders@) == amount_sum(old(self).sell_orders@),
            final(self).lowest_ask == best_price(final(self).sell_orders@, old(self).lowest_ask),
            final(self).highest_bid == best_price(final(self).buy_orders@, old(self).highest_bid),
            all_open(old(self).buy_orders@) && all_open(old(self).sell_orders@) && all_of_type(
                old(self).buy_orders@,
                TYPE_OF_ORDER::BUY,
            ) && all_of_type(old(self).sell_orders@, TYPE_OF_ORDER::SELL) ==> final(self).wf(),
    {
        let ghost start = *self;
        sort_by_price(&mut self.buy_orders, true);
        sort_by_price(&mut self.sell_orders, false);
        if self.sell_orders.len() > 0 {
            self.lowest_ask = self.sell_orders[0].price;
        }
        if self.buy_orders.len() > 0 {
            self.highest_bid = self.buy_orders[0].price;
        }
        proof {
            lemma_same_orders_keep_properties(self.buy_orders@, start.buy_orders@, TYPE_OF_ORDER::BUY);
            lemma_same_orders_keep_properties(self.sell_orders@, start.sell_orders@, TYPE_OF_ORDER::SELL);
        }
    }

    /// One step of the live engine: `new_order` trades with the other side if
    /// that side has orders, what is left of it joins its own side, then both
    /// sides are sorted and the best prices taken. Returns the trades.
    pub fn submit(&mut self, new_order: Order) -> (fills: Vec<Fill>)
        ensures
            is_stable_sort(
                final(self).buy_orders@,
                submitted_sides(old(self).buy_orders@, old(self).sell_orders@, new_order).0,
                true,
            ),
            is_stable_sort(
                final(self).sell_orders@,
                submitted_sides(old(self).buy_orders@, old(self).sell_orders@, new_order).1,
                false,
            ),
            final(self).buy_orders@.to_multiset() == submitted_sides(
                old(self).buy_orders@,
                old(self).sell_orders@,
                new_order,
            ).0.to_multiset(),
            final(self).sell_orders@.to_multiset() == submitted_sides(
                old(self).buy_orders@,
                old(self).sell_orders@,
                new_order,
            ).1.to_multiset(),
            fills@ == submitted_fills(old(self).buy_orders@, old(self).sell_orders@, new_order),
            new_order.order_type == TYPE_OF_ORDER::BUY ==> {
                &&& amount_sum(final(self).buy_orders@) == amount_sum(old(self).buy_orders@)
                    + new_order.amount - traded_quantity(fills@)
                &&& amount_sum(final(self).sell_orders@) == amount_sum(old(self).sell_orders@)
                    - traded_quantity(fills@)
            },
            new_order.order_type == TYPE_OF_ORDER::SELL ==> {
                &&& amount_sum(final(self).sell_orders@) == amount_sum(old(self).sell_orders@)
                    + new_order.amount - traded_quantity(fills@)
                &&& amount_sum(final(self).buy_orders@) == amount_sum(old(self).buy_orders@)
                    - traded_quantity(fills@)
            },
            final(self).lowest_ask == best_price(final(self).sell_orders@, old(self).lowest_ask),
            final(self).highest_bid == best_price(final(self).buy_orders@, old(self).highest_bid),
            old(self).wf() ==> final(self).wf(),
    {
        let ghost start = *self;
        let ghost submitted = new_order;
        let mut new_order = new_order;
        let fills;
        if new_order.order_type == TYPE_OF_ORDER::BUY {
            if self.sell_orders.len() > 0 {
                fills = matching(&mut self.sell_orders, &mut new_order);
            } else {
                fills = Vec::new();
            }
            if new_order.amount != 0 {
                self.buy_orders.push(new_order);
            }
        } else {
            if self.buy_orders.len() > 0 {
                fills = matching(&mut self.buy_orders, &mut new_order);
            } else {
                fills = Vec::new();
            }
            if new_order.amount != 0 {
                self.sell_orders.push(new_order);
            }
        }
        proof {
            let sides = submitted_sides(start.buy_orders@, start.sell_orders@, submitted);
            assert(self.buy_orders@ =~= sides.0);
            assert(self.sell_orders@ =~= sides.1);
            if start.wf() {
                lemma_submitted_sides_open(start, submitted);
            }
            law_submit_conserves_quantity(start.buy_orders@, start.sell_orders@, submitted);
        }
        self.refresh();
        fills
    }

    /// One record of a data file: `new_order` joins its own side whole, as it is,
    /// and only then trades with the other side. So an order read from a file
    /// rests at its full quantity even when its trades fill it in part or in
    /// full, unlike `submit`, where only what is left rests. Neither side is
    /// sorted and the best prices stay as they are. Against an empty other side
    /// nothing trades.
    pub fn process_order(&mut self, new_order: Order) -> (fills: Vec<Fill>)
        ensures
            new_order.order_type == TYPE_OF_ORDER::BUY ==> {
                &&& final(self).buy_orders@ == old(self).buy_orders@.push(new_order)
                &&& final(self).sell_orders@ == match_outcome(old(self).sell_orders@, new_order).0
                &&& fills@ == match_outcome(old(self).sell_orders@, new_order).2
            },
            new_order.order_type == TYPE_OF_ORDER::SELL ==> {
                &&& final(self).sell_orders@ == old(self).sell_orders@.push(new_order)
                &&& final(self).buy_orders@ == match_outcome(old(self).buy_orders@, new_order).0
                &&& fills@ == match_outcome(old(self).buy_orders@, new_order).2
            },
            final(self).lowest_ask == old(self).lowest_ask,
            final(self).highest_bid == old(self).highest_bid,
            all_of_type(old(self).buy_orders@, TYPE_OF_ORDER::BUY) && all_of_type(
                old(self).sell_orders@,
                TYPE_OF_ORDER::SELL,
            ) ==> all_of_type(final(self).buy_orders@, TYPE_OF_ORDER::BUY) && all_of_type(
                final(self).sell_orders@,
                TYPE_OF_ORDER::SELL,
            ),
    {
        let ghost start = *self;
        let ghost record = new_order;
        let mut new_order = new_order;
        let fills;
        if new_order.order_type == TYPE_OF_ORDER::BUY {
            self.buy_orders.push(new_order);
            fills = matching(&mut self.sell_orders, &mut new_order);
        } else {
            self.sell_orders.push(new_order);
            fills = matching(&mut self.buy_orders, &mut new_order);
        }
        proof {
            if all_of_type(start.buy_orders@, TYPE_OF_ORDER::BUY) && all_of_type(
                start.sell_orders@,
                TYPE_OF_ORDER::SELL,
            ) {
                law_matching_keeps_side(start.sell_orders@, record, TYPE_OF_ORDER::SELL);
                law_matching_keeps_side(start.buy_orders@, record, TYPE_OF_ORDER::BUY);
                if record.order_type == TYPE_OF_ORDER::BUY {
                    assert forall|k: int| 0 <= k < self.buy_orders@.len() implies #[trigger] self.buy_orders@[k].order_type
                        == TYPE_OF_ORDER::BUY by {
                        if k < start.buy_orders@.len() {
                            assert(self.buy_orders@[k] == start.buy_orders@[k]);
                        }
                    }
                } else {
                    assert forall|k: int| 0 <= k < self.sell_orders@.len() implies #[trigger] self.sell_orders@[k].order_type
                        == TYPE_OF_ORDER::SELL by {
                        if k < start.sell_orders@.len() {
                            assert(self.sell_orders@[k] == start.sell_orders@[k]);
                        }
                    }
                }
            }
        }
        fills
    }
}

/// Submitting conserves quantity: the new order's own side gains exactly the
/// new order's quantity less what its trades exchange, and the other side loses
/// exactly what the trades exchange. So both sides together hold what they held
/// plus the new order's quantity, less twice the traded quantity.
pub proof fn law_submit_conserves_quantity(buy: Seq<Order>, sell: Seq<Order>, new_order: Order)
    ensures
        new_order.order_type == TYPE_OF_ORDER::BUY ==> {
            &&& amount_sum(submitted_sides(buy, sell, new_order).0) == amount_sum(buy) + new_order.amount
                - traded_quantity(submitted_fills(buy, sell, new_order))
            &&& amount_sum(submitted_sides(buy, sell, new_order).1) == amount_sum(sell)
                - traded_quantity(submitted_fills(buy, sell, new_order))
        },
        new_order.order_type == TYPE_OF_ORDER::SELL ==> {
            &&& amount_sum(submitted_sides(buy, sell, new_order).1) == amount_sum(sell) + new_order.amount
                - traded_quantity(submitted_fills(buy, sell, new_order))
            &&& amount_sum(submitted_sides(buy, sell, new_order).0) == amount_sum(buy)
                - traded_quantity(submitted_fills(buy, sell, new_order))
        },
        amount_sum(submitted_sides(buy, sell, new_order).0) + amount_sum(
            submitted_sides(buy, sell, new_order).1,
        ) + 2 * traded_quantity(submitted_fills(buy, sell, new_order)) == amount_sum(buy) + amount_sum(
            sell,
        ) + new_order.amount,
{
    let opposite = if new_order.order_type == TYPE_OF_ORDER::BUY {
        sell
    } else {
        buy
    };
    let own = if new_order.order_type == TYPE_OF_ORDER::BUY {
        buy
    } else {
        sell
    };
    let out = opposite_outcome(opposite, new_order);
    law_matching_conserves_quantity(opposite, new_order);
    law_matching_trades_what_the_order_loses(opposite, new_order);
    assert(traded_quantity(Seq::<Fill>::empty()) == 0);
    if out.1 != 0 {
        lemma_amount_sum_push(
            own,
            Order { order_type: new_order.order_type, price: new_order.price, amount: out.1 },
        );
    }
}

/// After matching and adding the rest, every order is still open and on its side.
proof fn lemma_submitted_sides_open(book: OrderBook, new_order: Order)
    requires
        book.wf(),
    ensures
        all_open(submitted_sides(book.buy_orders@, book.sell_orders@, new_order).0),
        all_open(submitted_sides(book.buy_orders@, book.sell_orders@, new_order).1),
        all_of_type(submitted_sides(book.buy_orders@, book.sell_orders@, new_order).0, TYPE_OF_ORDER::BUY),
        all_of_type(submitted_sides(book.buy_orders@, book.sell_orders@, new_order).1, TYPE_OF_ORDER::SELL),
{
    law_matching_keeps_orders_open(book.sell_orders@, new_order);
    law_matching_keeps_orders_open(book.buy_orders@, new_order);
    law_matching_keeps_side(book.sell_orders@, new_order, TYPE_OF_ORDER::SELL);
    law_matching_keeps_side(book.buy_orders@, new_order, TYPE_OF_ORDER::BUY);
    let sides = submitted_sides(book.buy_orders@, book.sell_orders@, new_order);
    if new_order.order_type == TYPE_OF_ORDER::BUY {
        let out = opposite_outcome(book.sell_orders@, new_order);
        assert forall|k: int| 0 <= k < sides.0.len() implies #[trigger] sides.0[k].amount > 0
            && sides.0[k].order_type == TYPE_OF_ORDER::BUY by {
            if k < book.buy_orders@.len() {
                assert(sides.0[k] == book.buy_orders@[k]);
            }
        }
    } else {
        let out = opposite_outcome(book.buy_orders@, new_order);
        assert forall|k: int| 0 <= k < sides.1.len() implies #[trigger] sides.1[k].amount > 0
            && sides.1[k].order_type == TYPE_OF_ORDER::SELL by {
            if k < book.sell_orders@.len() {
                assert(sides.1[k] == book.sell_orders@[k]);
            }
        }
    }
}

/// In a book in order, the lowest ask is at or below every sell price and the
/// highest bid at or above every buy price.
pub proof fn law_best_prices_bound_the_sides(book: OrderBook)
    requires
        book.wf(),
    ensures
        forall|j: int|
            0 <= j < book.sell_orders@.len() ==> book.lowest_ask <= #[trigger] book.sell_orders@[j].price,
        forall|j: int|
            0 <= j < book.buy_orders@.len() ==> book.highest_bid >= #[trigger] book.buy_orders@[j].price,
{
    assert forall|j: int| 0 <= j < book.sell_orders@.len() implies book.lowest_ask
        <= #[trigger] book.sell_orders@[j].price by {
        if j > 0 {
            assert(!goes_after(book.sell_orders@[0], book.sell_orders@[j], false));
        }
    }
    assert forall|j: int| 0 <= j < book.buy_orders@.len() implies book.highest_bid
        >= #[trigger] book.buy_orders@[j].price by {
        if j > 0 {
            assert(!goes_after(book.buy_orders@[0], book.buy_orders@[j], true));
        }
    }
}

} // verus!
