//! Orders and the quantities the book reasons about.
use vstd::prelude::*;
use crate::sorting::{goes_after, sorted_by_price};

verus! {

/// Side of an order: a `SELL` order rests on the ask side, a `BUY` order on the bid side.
#[allow(non_camel_case_types)]
#[derive(PartialEq, Eq, Structural, Clone, Copy, Debug)]
pub enum TYPE_OF_ORDER {
    SELL,
    BUY,
}

/// An order: its side, its limit price in cents (hundredths of the currency
/// unit) and the quantity of the asset still open.
#[derive(PartialEq, Eq, Structural, Clone, Copy, Debug)]
pub struct Order {
    pub order_type: TYPE_OF_ORDER,
    pub price: i64,
    pub amount: u32,
}

/// Two orders are equal when their side, price and quantity are: equality is
/// reflexive (a price is a whole number of cents, never undefined) and symmetric.
pub proof fn law_order_equality(a: Order, b: Order)
    ensures
        a == a,
        (a == b) == (b == a),
        (a == b) <==> (a.order_type == b.order_type && a.price == b.price && a.amount == b.amount),
{
}

/// Total open quantity of a sequence of orders.
pub open spec fn amount_sum(s: Seq<Order>) -> int
    decreases s.len(),
{
    if s.len() == 0 {
        0
    } else {
        amount_sum(s.drop_last()) + s.last().amount
    }
}

/// The orders of `s` at price `p`, in their order in `s`.
pub open spec fn with_price(s: Seq<Order>, p: i64) -> Seq<Order>
    decreases s.len(),
{
    if s.len() == 0 {
        Seq::empty()
    } else if s.last().price == p {
        with_price(s.drop_last(), p).push(s.last())
    } else {
        with_price(s.drop_last(), p)
    }
}

/// Every order of `s` is on side `t`.
pub open spec fn all_of_type(s: Seq<Order>, t: TYPE_OF_ORDER) -> bool {
    forall|i: int| 0 <= i < s.len() ==> #[trigger] s[i].order_type == t
}

/// Every order of `s` has a quantity left.
pub open spec fn all_open(s: Seq<Order>) -> bool {
    forall|i: int| 0 <= i < s.len() ==> #[trigger] s[i].amount > 0
}

/// `a` and `b` joined have the orders of both at each price.
pub proof fn lemma_with_price_concat(a: Seq<Order>, b: Seq<Order>, p: i64)
    ensures
        with_price(a + b, p) == with_price(a, p) + with_price(b, p),
    decreases b.len(),
{
    if b.len() == 0 {
        assert(a + b =~= a);
        assert(with_price(a, p) + with_price(b, p) =~= with_price(a, p));
    } else {
        lemma_with_price_concat(a, b.drop_last(), p);
        assert((a + b).drop_last() =~= a + b.drop_last());
        assert((a + b).last() == b.last());
        if b.last().price == p {
            assert(with_price(a, p) + with_price(b.drop_last(), p).push(b.last()) =~= (
            with_price(a, p) + with_price(b.drop_last(), p)).push(b.last()));
        }
    }
}

/// Without an order at price `p`, nothing is left at `p`.
pub proof fn lemma_with_price_none(s: Seq<Order>, p: i64)
    requires
        forall|i: int| 0 <= i < s.len() ==> #[trigger] s[i].price != p,
    ensures
        with_price(s, p) == Seq::<Order>::empty(),
    decreases s.len(),
{
    if s.len() > 0 {
        lemma_with_price_none(s.drop_last(), p);
    }
}

/// The orders at one price of a sequence and of its prefix.
pub proof fn lemma_with_price_take(s: Seq<Order>, i: int, p: i64)
    requires
        0 <= i < s.len(),
    ensures
        with_price(s.take(i + 1), p) == if s[i].price == p {
            with_price(s.take(i), p).push(s[i])
        } else {
            with_price(s.take(i), p)
        },
{
    assert(s.take(i + 1).drop_last() =~= s.take(i));
}

/// Runs of neighbouring orders at one price, each as its first order and the
/// total quantity of the run.
pub open spec fn price_levels(s: Seq<Order>) -> Seq<(Order, int)>
    decreases s.len(),
{
    if s.len() == 0 {
        Seq::empty()
    } else {
        let prev = price_levels(s.drop_last());
        let o = s.last();
        if prev.len() > 0 && prev.last().0.price == o.price {
            prev.update(prev.len() - 1, (prev.last().0, prev.last().1 + o.amount))
        } else {
            prev.push((o, o.amount as int))
        }
    }
}

/// The order that stands for a price level: side and price of its first order,
/// quantity of the whole run.
pub open spec fn level_order(level: (Order, int)) -> Order {
    Order { order_type: level.0.order_type, price: level.0.price, amount: level.1 as u32 }
}

/// Every level's total fits in a `u32`.
pub open spec fn levels_fit(s: Seq<Order>) -> bool {
    forall|k: int| 0 <= k < price_levels(s).len() ==> #[trigger] price_levels(s)[k].1 <= u32::MAX
}

/// Sum of the totals of a sequence of levels.
pub open spec fn levels_total(levels: Seq<(Order, int)>) -> int
    decreases levels.len(),
{
    if levels.len() == 0 {
        0
    } else {
        levels_total(levels.drop_last()) + levels.last().1
    }
}

/// The levels of a prefix are those of the whole but for the last, whose total
/// can only grow as the run goes on.
proof fn lemma_levels_prefix(s: Seq<Order>, i: int)
    requires
        0 <= i <= s.len(),
    ensures
        price_levels(s.take(i)).len() <= price_levels(s).len(),
        forall|k: int|
            0 <= k < price_levels(s.take(i)).len() - 1 ==> #[trigger] price_levels(s.take(i))[k]
                == price_levels(s)[k],
        price_levels(s.take(i)).len() > 0 ==> {
            let a = price_levels(s.take(i));
            let b = price_levels(s);
            &&& a.last().0 == b[a.len() - 1].0
            &&& a.last().1 <= b[a.len() - 1].1
        },
    decreases s.len() - i,
{
    if i == s.len() {
        assert(s.take(i) =~= s);
    } else {
        lemma_levels_prefix(s, i + 1);
        assert(s.take(i + 1).drop_last() =~= s.take(i));
        assert(s.take(i + 1).last() == s[i]);
        lemma_levels_nonneg(s.take(i));
        let a = price_levels(s.take(i));
        let c = price_levels(s.take(i + 1));
        let b = price_levels(s);
        if a.len() > 0 && a.last().0.price == s[i].price {
            assert(c.len() == a.len());
            assert(forall|k: int| 0 <= k < a.len() - 1 ==> #[trigger] a[k] == c[k]);
            assert(c.last().0 == a.last().0);
            assert(c.last().1 >= a.last().1);
        } else {
            assert(c.len() == a.len() + 1);
            assert(forall|k: int| 0 <= k < a.len() ==> #[trigger] a[k] == c[k]);
            if a.len() > 0 {
                assert(a.last() == c[a.len() - 1]);
                assert(c[a.len() - 1] == b[a.len() - 1]);
            }
        }
    }
}

proof fn lemma_levels_nonneg(s: Seq<Order>)
    ensures
        forall|k: int| 0 <= k < price_levels(s).len() ==> #[trigger] price_levels(s)[k].1 >= 0,
    decreases s.len(),
{
    if s.len() > 0 {
        lemma_levels_nonneg(s.drop_last());
        let prev = price_levels(s.drop_last());
        let cur = price_levels(s);
        assert forall|k: int| 0 <= k < cur.len() implies #[trigger] cur[k].1 >= 0 by {
            if k < prev.len() - 1 || (k == prev.len() - 1 && cur.len() > prev.len()) {
                assert(cur[k] == prev[k]);
            }
        }
    }
}

/// Sums the quantities of neighbouring orders at the same price, so that each
/// price level shows its whole supply: `(10.2, 800), (10.2, 900)` becomes
/// `(10.2, 1700)`. Each level keeps the side and price of its first order.
pub fn tuple_sum_by_key(book: &[Order]) -> (result: Vec<Order>)
    requires
        levels_fit(book@),
    ensures
        result@.len() == price_levels(book@).len(),
        forall|k: int| 0 <= k < result@.len() ==> #[trigger] result@[k] == level_order(price_levels(book@)[k]),
{
    let mut result: Vec<Order> = Vec::new();
    if book.len() > 0 {
        let n = book.len();
        let mut item = book[0];
        proof {
            assert(book@.take(1).drop_last() =~= Seq::<Order>::empty());
            assert(book@.take(1).last() == book@[0]);
            assert(price_levels(Seq::<Order>::empty()).len() == 0);
            assert(price_levels(book@.take(1)) =~= seq![(book@[0], book@[0].amount as int)]);
        }
        for i in 1..n
            invariant
                n == book@.len(),
                levels_fit(book@),
                price_levels(book@.take(i as int)).len() == result@.len() + 1,
                forall|k: int| 0 <= k < result@.len() ==> #[trigger] result@[k] == level_order(
                    price_levels(book@.take(i as int))[k],
                ),
                price_levels(book@.take(i as int)).last().0.order_type == item.order_type,
                price_levels(book@.take(i as int)).last().0.price == item.price,
                price_levels(book@.take(i as int)).last().1 == item.amount,
        {
            let t = book[i];
            proof {
                assert(book@.take(i + 1).drop_last() =~= book@.take(i as int));
                assert(book@.take(i + 1).last() == t);
                lemma_levels_prefix(book@, i + 1);
            }
            if t.price == item.price {
                proof {
                    let a = price_levels(book@.take(i + 1));
                    assert(a.last().1 == item.amount + t.amount);
                    assert(price_levels(book@)[a.len() - 1].1 <= u32::MAX);
                }
                item.amount = item.amount + t.amount;
            } else {
                result.push(item);
                item = t;
            }
        }
        result.push(item);
        proof {
            assert(book@.take(n as int) =~= book@);
        }
    }
    result
}

/// Whether every price level of `book` has a total that fits in a `u32`, as
/// `tuple_sum_by_key` needs.
pub fn levels_fit_u32(book: &[Order]) -> (fits: bool)
    ensures
        fits == levels_fit(book@),
{
    let n = book.len();
    let mut run: u64 = 0;
    proof {
        assert(book@.take(0) =~= Seq::<Order>::empty());
        assert(price_levels(Seq::<Order>::empty()).len() == 0);
    }
    for i in 0..n
        invariant
            n == book@.len(),
            levels_fit(book@.take(i as int)),
            i > 0 ==> run == price_levels(book@.take(i as int)).last().1,
            i > 0 ==> price_levels(book@.take(i as int)).len() > 0,
            i > 0 ==> price_levels(book@.take(i as int)).last().0.price == book@[i - 1].price,
            run <= u32::MAX,
    {
        let o = book[i];
        let ghost before = price_levels(book@.take(i as int));
        proof {
            assert(book@.take(i + 1).drop_last() =~= book@.take(i as int));
            assert(book@.take(i + 1).last() == o);
        }
        if i > 0 && book[i - 1].price == o.price {
            run = run + o.amount as u64;
        } else {
            run = o.amount as u64;
            proof {
                if i > 0 {
                    assert(before.last().0.price != o.price);
                } else {
                    assert(before.len() == 0);
                }
            }
        }
        let ghost after = price_levels(book@.take(i + 1));
        assert(after.last().1 == run);
        if run > 4294967295u64 {
            proof {
                lemma_levels_prefix(book@, i + 1);
                assert(price_levels(book@)[after.len() - 1].1 > u32::MAX);
            }
            return false;
        }
        proof {
            assert forall|k: int| 0 <= k < after.len() implies #[trigger] after[k].1 <= u32::MAX by {
                if k < after.len() - 1 {
                    assert(after[k] == before[k]);
                }
            }
        }
    }
    proof {
        assert(book@.take(n as int) =~= book@);
    }
    true
}

/// Summing by price keeps the total quantity.
pub proof fn law_levels_keep_total(s: Seq<Order>)
    ensures
        levels_total(price_levels(s)) == amount_sum(s),
    decreases s.len(),
{
    if s.len() > 0 {
        law_levels_keep_total(s.drop_last());
        let prev = price_levels(s.drop_last());
        if prev.len() > 0 && prev.last().0.price == s.last().price {
            let upd = prev.update(prev.len() - 1, (prev.last().0, prev.last().1 + s.last().amount));
            assert(upd.drop_last() =~= prev.drop_last());
        } else {
            assert(prev.push((s.last(), s.last().amount as int)).drop_last() =~= prev);
        }
    }
}

/// Adding an order adds its quantity.
pub proof fn lemma_amount_sum_push(s: Seq<Order>, o: Order)
    ensures
        amount_sum(s.push(o)) == amount_sum(s) + o.amount,
{
    assert(s.push(o).drop_last() =~= s);
}

/// The quantity of two sequences joined is the sum of theirs.
pub proof fn lemma_amount_sum_concat(a: Seq<Order>, b: Seq<Order>)
    ensures
        amount_sum(a + b) == amount_sum(a) + amount_sum(b),
    decreases b.len(),
{
    if b.len() == 0 {
        assert(a + b =~= a);
    } else {
        lemma_amount_sum_concat(a, b.drop_last());
        assert((a + b).drop_last() =~= a + b.drop_last());
        assert((a + b).last() == b.last());
    }
}

/// Inserting an order anywhere adds its quantity.
pub proof fn lemma_amount_sum_insert(s: Seq<Order>, k: int, o: Order)
    requires
        0 <= k <= s.len(),
    ensures
        amount_sum(s.insert(k, o)) == amount_sum(s) + o.amount,
{
    let a = s.take(k);
    let b = s.skip(k);
    assert(s.insert(k, o) =~= (a + seq![o]) + b);
    assert(s =~= a + b);
    lemma_amount_sum_concat(a + seq![o], b);
    lemma_amount_sum_concat(a, seq![o]);
    lemma_amount_sum_concat(a, b);
    lemma_amount_sum_push(Seq::<Order>::empty(), o);
    assert(Seq::<Order>::empty().push(o) =~= seq![o]);
}

proof fn lemma_levels_of_sorted(s: Seq<Order>, descending: bool)
    requires
        sorted_by_price(s, descending),
    ensures
        forall|k: int|
            0 <= k < price_levels(s).len() ==> #[trigger] price_levels(s)[k].1 == amount_sum(
                with_price(s, price_levels(s)[k].0.price),
            ),
        s.len() > 0 ==> price_levels(s).len() > 0 && price_levels(s).last().0.price == s.last().price,
        forall|k: int|
            0 <= k < price_levels(s).len() - 1 ==> goes_after(
                price_levels(s).last().0,
                #[trigger] price_levels(s)[k].0,
                descending,
            ),
    decreases s.len(),
{
    if s.len() > 0 {
        let front = s.drop_last();
        let o = s.last();
        assert(sorted_by_price(front, descending)) by {
            assert forall|i: int, j: int| 0 <= i < j < front.len() implies !goes_after(
                #[trigger] front[i],
                #[trigger] front[j],
                descending,
            ) by {
                assert(front[i] == s[i] && front[j] == s[j]);
            }
        }
        lemma_levels_of_sorted(front, descending);
        let prev = price_levels(front);
        let cur = price_levels(s);
        if prev.len() > 0 && prev.last().0.price == o.price {
            assert forall|k: int| 0 <= k < cur.len() implies #[trigger] cur[k].1 == amount_sum(
                with_price(s, cur[k].0.price),
            ) by {
                if k < cur.len() - 1 {
                    assert(cur[k] == prev[k]);
                    assert(goes_after(prev.last().0, prev[k].0, descending));
                } else {
                    lemma_amount_sum_push(with_price(front, o.price), o);
                }
            }
            assert forall|k: int| 0 <= k < cur.len() - 1 implies goes_after(
                cur.last().0,
                #[trigger] cur[k].0,
                descending,
            ) by {
                assert(cur[k] == prev[k]);
            }
        } else {
            if front.len() > 0 {
                assert(!goes_after(s[front.len() - 1], s[s.len() - 1], descending));
                assert(goes_after(o, front.last(), descending));
                assert forall|j: int| 0 <= j < front.len() implies #[trigger] front[j].price != o.price by {
                    if j < front.len() - 1 {
                        assert(!goes_after(s[j], s[front.len() - 1], descending));
                    }
                }
                lemma_with_price_none(front, o.price);
            } else {
                assert(with_price(front, o.price) == Seq::<Order>::empty());
            }
            lemma_amount_sum_push(with_price(front, o.price), o);
            assert(Seq::<Order>::empty().push(o).drop_last() =~= Seq::<Order>::empty());
            assert(amount_sum(Seq::<Order>::empty()) == 0);
            assert forall|k: int| 0 <= k < cur.len() implies #[trigger] cur[k].1 == amount_sum(
                with_price(s, cur[k].0.price),
            ) by {
                if k < cur.len() - 1 {
                    assert(cur[k] == prev[k]);
                    if k < prev.len() - 1 {
                        assert(goes_after(prev.last().0, prev[k].0, descending));
                    }
                    assert(goes_after(o, prev[k].0, descending));
                }
            }
            assert forall|k: int| 0 <= k < cur.len() - 1 implies goes_after(
                cur.last().0,
                #[trigger] cur[k].0,
                descending,
            ) by {
                assert(cur[k] == prev[k]);
                if k < prev.len() - 1 {
                    assert(goes_after(prev.last().0, prev[k].0, descending));
                }
            }
        }
    }
}

/// On a sorted side each level holds every order at its price: its total is the
/// whole quantity offered at that price.
pub proof fn law_levels_total_each_price(s: Seq<Order>, descending: bool)
    requires
        sorted_by_price(s, descending),
    ensures
        forall|k: int|
            0 <= k < price_levels(s).len() ==> #[trigger] price_levels(s)[k].1 == amount_sum(
                with_price(s, price_levels(s)[k].0.price),
            ),
{
    lemma_levels_of_sorted(s, descending);
}

/// On a sorted side the levels come in strictly sorted prices, so each price has
/// exactly one level.
pub proof fn law_levels_strictly_sorted(s: Seq<Order>, descending: bool)
    requires
        sorted_by_price(s, descending),
    ensures
        forall|i: int, j: int|
            0 <= i < j < price_levels(s).len() ==> goes_after(
                #[trigger] price_levels(s)[j].0,
                #[trigger] price_levels(s)[i].0,
                descending,
            ),
    decreases s.len(),
{
    if s.len() > 0 {
        let front = s.drop_last();
        assert(sorted_by_price(front, descending)) by {
            assert forall|i: int, j: int| 0 <= i < j < front.len() implies !goes_after(
                #[trigger] front[i],
                #[trigger] front[j],
                descending,
            ) by {
                assert(front[i] == s[i] && front[j] == s[j]);
            }
        }
        law_levels_strictly_sorted(front, descending);
        lemma_levels_of_sorted(s, descending);
        let prev = price_levels(front);
        let cur = price_levels(s);
        assert forall|i: int, j: int| 0 <= i < j < cur.len() implies goes_after(
            #[trigger] cur[j].0,
            #[trigger] cur[i].0,
            descending,
        ) by {
            if j < cur.len() - 1 {
                assert(cur[i].0 == prev[i].0 && cur[j].0 == prev[j].0);
            } else {
                assert(goes_after(cur.last().0, cur[i].0, descending));
            }
        }
    }
}

/// Neighbouring levels are at different prices.
pub proof fn law_levels_neighbours_differ(s: Seq<Order>)
    ensures
        forall|k: int|
            0 <= k < price_levels(s).len() - 1 ==> #[trigger] price_levels(s)[k].0.price
                != price_levels(s)[k + 1].0.price,
    decreases s.len(),
{
    if s.len() > 0 {
        law_levels_neighbours_differ(s.drop_last());
    }
}

} // verus!
