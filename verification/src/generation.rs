//! The random parts of a generated order that need no floating point: its side
//! and its quantity, and the mean around which its price is drawn.
use vstd::prelude::*;
use rand::Rng;
use crate::order::TYPE_OF_ORDER;

verus! {

/// Standard deviation of generated prices, in cents.
pub const STANDARD_DEVIATION: i64 = 10;

/// Smallest quantity of a generated order.
pub const MIN_GENERATED_AMOUNT: u32 = 10;

/// Bound (exclusive) on the quantity of a generated order.
pub const MAX_GENERATED_AMOUNT: u32 = 1000;

/// A random `bool` from `rand::random` (the thread's generator). Nothing is
/// stated of which one comes; `rand` panics when the operating system gives the
/// generator no seed, which no clause can rule out.
#[verifier::external_body]
fn random_bool() -> bool {
    rand::random::<bool>()
}

/// A random `u32` in `low..high` from `Rng::gen_range` on `rand::thread_rng()`:
/// the value is in the range, which must not be empty (`gen_range` panics on an
/// empty one). Which value comes is not stated; `rand` panics when the operating
/// system gives the generator no seed, which no clause can rule out.
#[verifier::external_body]
fn random_in_range(low: u32, high: u32) -> (r: u32)
    requires
        low < high,
    ensures
        low <= r < high,
{
    rand::thread_rng().gen_range(low..high)
}

/// The side a coin toss gives: `true` a buy order, `false` a sell order.
pub fn order_type_of_toss(buy: bool) -> (t: TYPE_OF_ORDER)
    ensures
        t == if buy {
            TYPE_OF_ORDER::BUY
        } else {
            TYPE_OF_ORDER::SELL
        },
{
    if buy {
        TYPE_OF_ORDER::BUY
    } else {
        TYPE_OF_ORDER::SELL
    }
}

/// A random side for a generated order. Either side can come.
pub fn generate_order_type() -> TYPE_OF_ORDER {
    order_type_of_toss(random_bool())
}

/// `amount` is an outcome of a draw over the whole range of generated
/// quantities, `MIN_GENERATED_AMOUNT..MAX_GENERATED_AMOUNT`.
pub closed spec fn drawn_over_generated_range(amount: u32) -> bool {
    call_ensures(random_in_range, (MIN_GENERATED_AMOUNT, MAX_GENERATED_AMOUNT), amount)
}

/// A quantity drawn over the whole range of generated quantities lies in it.
pub proof fn law_drawn_amount_in_range(amount: u32)
    requires
        drawn_over_generated_range(amount),
    ensures
        MIN_GENERATED_AMOUNT <= amount < MAX_GENERATED_AMOUNT,
{
}

/// A random quantity for a generated order, from 10 up to 999: an outcome of a
/// draw over that whole range.
pub fn generate_amount() -> (amount: u32)
    ensures
        MIN_GENERATED_AMOUNT <= amount < MAX_GENERATED_AMOUNT,
        drawn_over_generated_range(amount),
{
    random_in_range(MIN_GENERATED_AMOUNT, MAX_GENERATED_AMOUNT)
}

/// The mean of the normal distribution a generated price is drawn from, in
/// cents: two standard deviations above the highest bid for a sell order, two
/// below the lowest ask for a buy order.
pub fn price_mean(order_type: TYPE_OF_ORDER, lowest_ask: i64, highest_bid: i64) -> (mean: i64)
    requires
        order_type == TYPE_OF_ORDER::SELL ==> highest_bid <= i64::MAX - 2 * STANDARD_DEVIATION,
        order_type == TYPE_OF_ORDER::BUY ==> lowest_ask >= i64::MIN + 2 * STANDARD_DEVIATION,
    ensures
        mean == if order_type == TYPE_OF_ORDER::SELL {
            highest_bid + 2 * STANDARD_DEVIATION
        } else {
            lowest_ask - 2 * STANDARD_DEVIATION
        },
{
    match order_type {
        TYPE_OF_ORDER::SELL => highest_bid + 2 * STANDARD_DEVIATION,
        TYPE_OF_ORDER::BUY => lowest_ask - 2 * STANDARD_DEVIATION,
    }
}

} // verus!
