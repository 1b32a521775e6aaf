//! The text of prices, orders and log records, and the fields read from a data
//! file.
use vstd::prelude::*;
use crate::order::{Order, TYPE_OF_ORDER};
use crate::matching::Fill;

verus! {

/// The decimal digit `d` as a character.
pub open spec fn digit_char(d: int) -> char {
    (d + 48) as char
}

/// `n` in decimal, without leading zeros.
pub open spec fn nat_text(n: nat) -> Seq<char>
    decreases n,
{
    if n < 10 {
        seq![digit_char(n as int)]
    } else {
        nat_text(n / 10).push(digit_char((n % 10) as int))
    }
}

/// The hundredths of a price after its point: none when they are zero, one
/// digit when the second is zero, else two.
pub open spec fn fraction_text(hundredths: int) -> Seq<char> {
    if hundredths == 0 {
        Seq::empty()
    } else if hundredths % 10 == 0 {
        seq!['.', digit_char(hundredths / 10)]
    } else {
        seq!['.', digit_char(hundredths / 10), digit_char(hundredths % 10)]
    }
}

/// A price in cents written as a decimal number of currency units, the shortest
/// way: `1870` is `18.7`, `1800` is `18`, `1805` is `18.05`, `-50` is `-0.5`.
pub open spec fn price_text(cents: int) -> Seq<char> {
    let m = if cents < 0 {
        -cents
    } else {
        cents
    };
    let sign = if cents < 0 {
        seq!['-']
    } else {
        Seq::<char>::empty()
    };
    sign + nat_text((m / 100) as nat) + fraction_text(m % 100)
}

/// One order as the book shows it: `[price, amount], `.
pub open spec fn order_text(o: Order) -> Seq<char> {
    seq!['['] + price_text(o.price as int) + seq![',', ' '] + nat_text(o.amount as nat) + seq![
        ']',
        ',',
        ' ',
    ]
}

/// The orders of a side, one after the other.
pub open spec fn orders_text(s: Seq<Order>) -> Seq<char>
    decreases s.len(),
{
    if s.len() == 0 {
        Seq::empty()
    } else {
        orders_text(s.drop_last()) + order_text(s.last())
    }
}

fn digit_str(d: u64) -> (s: &'static str)
    requires
        d < 10,
    ensures
        s@ == seq![digit_char(d as int)],
{
    if d == 0 {
        proof {
            reveal_strlit("0");
        }
        "0"
    } else if d == 1 {
        proof {
            reveal_strlit("1");
        }
        "1"
    } else if d == 2 {
        proof {
            reveal_strlit("2");
        }
        "2"
    } else if d == 3 {
        proof {
            reveal_strlit("3");
        }
        "3"
    } else if d == 4 {
        proof {
            reveal_strlit("4");
        }
        "4"
    } else if d == 5 {
        proof {
            reveal_strlit("5");
        }
        "5"
    } else if d == 6 {
        proof {
            reveal_strlit("6");
        }
        "6"
    } else if d == 7 {
        proof {
            reveal_strlit("7");
        }
        "7"
    } else if d == 8 {
        proof {
            reveal_strlit("8");
        }
        "8"
    } else {
        proof {
            reveal_strlit("9");
        }
        "9"
    }
}

fn push_nat_text(s: &mut String, n: u64)
    ensures
        final(s)@ == old(s)@ + nat_text(n as nat),
    decreases n,
{
    if n >= 10 {
        push_nat_text(s, n / 10);
    }
    s.append(digit_str(n % 10));
    proof {
        if n >= 10 {
            assert(old(s)@ + nat_text((n / 10) as nat) + seq![digit_char((n % 10) as int)] =~= old(
                s,
            )@ + nat_text(n as nat));
        } else {
            assert(old(s)@ + seq![digit_char(n as int)] =~= old(s)@ + nat_text(n as nat));
        }
    }
}

fn push_price_text(s: &mut String, cents: i64)
    ensures
        final(s)@ == old(s)@ + price_text(cents as int),
{
    let m: u64 = if cents < 0 {
        ((-(cents + 1)) as u64) + 1
    } else {
        cents as u64
    };
    if cents < 0 {
        proof {
            reveal_strlit("-");
        }
        s.append("-");
    }
    let ghost with_sign = s@;
    push_nat_text(s, m / 100);
    let frac = m % 100;
    if frac != 0 {
        proof {
            reveal_strlit(".");
        }
        s.append(".");
        s.append(digit_str(frac / 10));
        if frac % 10 != 0 {
            s.append(digit_str(frac % 10));
        }
    }
    proof {
        let sign = if cents < 0 {
            seq!['-']
        } else {
            Seq::<char>::empty()
        };
        assert(with_sign =~= old(s)@ + sign);
        assert(m as int == if cents < 0 { -cents } else { cents as int });
        assert(s@ =~= old(s)@ + sign + nat_text((m / 100) as nat) + fraction_text((m % 100) as int));
        assert(old(s)@ + sign + nat_text((m / 100) as nat) + fraction_text((m % 100) as int)
            =~= old(s)@ + price_text(cents as int));
    }
}

/// A price in cents as text, the way the engine shows and logs it.
pub fn format_price(cents: i64) -> (text: String)
    ensures
        text@ == price_text(cents as int),
{
    let mut s = String::new();
    push_price_text(&mut s, cents);
    proof {
        assert(Seq::<char>::empty() + price_text(cents as int) =~= price_text(cents as int));
    }
    s
}

/// A quantity as text.
pub fn format_amount(amount: u32) -> (text: String)
    ensures
        text@ == nat_text(amount as nat),
{
    let mut s = String::new();
    push_nat_text(&mut s, amount as u64);
    proof {
        assert(Seq::<char>::empty() + nat_text(amount as nat) =~= nat_text(amount as nat));
    }
    s
}

/// The orders of a side as one line of text: `[price, amount], ` for each.
pub fn format_orders(orders: &[Order]) -> (text: String)
    ensures
        text@ == orders_text(orders@),
{
    let mut s = String::new();
    proof {
        assert(orders@.take(0) =~= Seq::<Order>::empty());
    }
    let n = orders.len();
    for i in 0..n
        invariant
            n == orders@.len(),
            s@ == orders_text(orders@.take(i as int)),
    {
        let o = orders[i];
        let ghost before = s@;
        proof {
            reveal_strlit("[");
            reveal_strlit(", ");
            reveal_strlit("], ");
        }
        s.append("[");
        push_price_text(&mut s, o.price);
        s.append(", ");
        push_nat_text(&mut s, o.amount as u64);
        s.append("], ");
        proof {
            assert(orders@.take(i + 1).drop_last() =~= orders@.take(i as int));
            assert(orders@.take(i + 1).last() == o);
            assert(s@ =~= before + order_text(o));
        }
    }
    proof {
        assert(orders@.take(n as int) =~= orders@);
    }
    s
}

/// A character is a decimal digit.
pub open spec fn is_digit(c: char) -> bool {
    '0' <= c && c <= '9'
}

/// The number that a sequence of decimal digits writes.
pub open spec fn digits_value(d: Seq<char>) -> int
    decreases d.len(),
{
    if d.len() == 0 {
        0
    } else {
        digits_value(d.drop_last()) * 10 + (d.last() as int - 48)
    }
}

/// The digits of an unsigned number: the text without one leading `+`.
pub open spec fn unsigned_digits(s: Seq<char>) -> Seq<char> {
    if s.len() > 0 && s[0] == '+' {
        s.drop_first()
    } else {
        s
    }
}

/// What reading a `u32` from text gives, as the standard library reads one: an
/// optional `+`, then one or more decimal digits whose value fits.
pub open spec fn u32_from_text(s: Seq<char>) -> Option<u32> {
    let d = unsigned_digits(s);
    if d.len() > 0 && (forall|i: int| 0 <= i < d.len() ==> is_digit(#[trigger] d[i])) && digits_value(
        d,
    ) <= u32::MAX {
        Some(digits_value(d) as u32)
    } else {
        None
    }
}

proof fn lemma_digit_char(d: int)
    requires
        0 <= d < 10,
    ensures
        digit_char(d) as int == d + 48,
        is_digit(digit_char(d)),
{
}

proof fn lemma_nat_text_digits(n: nat)
    ensures
        nat_text(n).len() > 0,
        forall|i: int| 0 <= i < nat_text(n).len() ==> is_digit(#[trigger] nat_text(n)[i]),
        digits_value(nat_text(n)) == n,
    decreases n,
{
    if n < 10 {
        let t = nat_text(n);
        assert(t.drop_last() =~= Seq::<char>::empty());
        assert(t.last() == digit_char(n as int));
        lemma_digit_char(n as int);
        assert(digits_value(Seq::<char>::empty()) == 0);
        assert(digits_value(t) == digits_value(t.drop_last()) * 10 + (t.last() as int - 48));
    } else {
        lemma_digit_char((n % 10) as int);
        lemma_nat_text_digits(n / 10);
        let t = nat_text(n);
        assert(t.drop_last() =~= nat_text(n / 10));
        assert(t.last() == digit_char((n % 10) as int));
        assert(forall|i: int| 0 <= i < t.len() - 1 ==> t[i] == nat_text(n / 10)[i]);
        assert(digits_value(t) == digits_value(t.drop_last()) * 10 + (t.last() as int - 48));
        assert(digits_value(t) == (n / 10) * 10 + n % 10);
    }
}

/// A quantity written as text reads back as the same quantity.
pub proof fn law_amount_text_round_trip(amount: u32)
    ensures
        u32_from_text(nat_text(amount as nat)) == Some(amount),
{
    lemma_nat_text_digits(amount as nat);
    let t = nat_text(amount as nat);
    assert(is_digit(t[0]));
    assert(unsigned_digits(t) == t);
}

/// The value in cents of a decimal text with no sign: its digits, then at most
/// one point followed by one or two digits of the fraction.
pub open spec fn decimal_cents(t: Seq<char>) -> int {
    if exists|i: int| 0 <= i < t.len() && t[i] == '.' {
        let i = choose|i: int| 0 <= i < t.len() && t[i] == '.';
        let frac = t.skip(i + 1);
        digits_value(t.take(i)) * 100 + if frac.len() == 1 {
            digits_value(frac) * 10
        } else {
            digits_value(frac)
        }
    } else {
        digits_value(t) * 100
    }
}

proof fn lemma_digits_value_short(d1: int, d2: int)
    requires
        0 <= d1 < 10,
        0 <= d2 < 10,
    ensures
        digits_value(seq![digit_char(d1)]) == d1,
        digits_value(seq![digit_char(d1), digit_char(d2)]) == d1 * 10 + d2,
{
    lemma_digit_char(d1);
    lemma_digit_char(d2);
    assert(seq![digit_char(d1)].drop_last() =~= Seq::<char>::empty());
    assert(digits_value(Seq::<char>::empty()) == 0);
    let two = seq![digit_char(d1), digit_char(d2)];
    assert(two.drop_last() =~= seq![digit_char(d1)]);
    assert(two.last() == digit_char(d2));
    assert(digits_value(two) == digits_value(two.drop_last()) * 10 + (two.last() as int - 48));
}

proof fn lemma_unsigned_price_text(m: nat)
    ensures
        decimal_cents(nat_text(m / 100) + fraction_text((m % 100) as int)) == m,
{
    let q = m / 100;
    let f = (m % 100) as int;
    let w = nat_text(q);
    lemma_nat_text_digits(q);
    let t = w + fraction_text(f);
    if f == 0 {
        assert(t =~= w);
        assert forall|i: int| 0 <= i < t.len() implies t[i] != '.' by {
            assert(is_digit(w[i]));
        }
    } else {
        let d1 = f / 10;
        let d2 = f % 10;
        lemma_digits_value_short(d1, d2);
        lemma_digit_char(d1);
        lemma_digit_char(d2);
        let l = w.len() as int;
        assert(t[l] == '.');
        assert forall|i: int| 0 <= i < t.len() && t[i] == '.' implies i == l by {
            if i < l {
                assert(t[i] == w[i]);
                assert(is_digit(w[i]));
            } else if i > l {
                if i == l + 1 {
                    assert(t[i] == digit_char(d1));
                } else {
                    assert(t[i] == digit_char(d2));
                }
            }
        }
        let i = choose|i: int| 0 <= i < t.len() && t[i] == '.';
        assert(i == l);
        assert(t.take(l) =~= w);
        if d2 == 0 {
            assert(t.skip(l + 1) =~= seq![digit_char(d1)]);
        } else {
            assert(t.skip(l + 1) =~= seq![digit_char(d1), digit_char(d2)]);
        }
    }
}

/// A price written as text reads back as the price: the text after any `-`
/// is the price's distance from zero, in cents, as a decimal number, and the
/// `-` stands exactly for a negative price.
pub proof fn law_price_text_reads_back(cents: i64)
    ensures
        cents >= 0 ==> price_text(cents as int).len() > 0 && price_text(cents as int)[0] != '-'
            && decimal_cents(price_text(cents as int)) == cents,
        cents < 0 ==> price_text(cents as int).len() > 0 && price_text(cents as int)[0] == '-'
            && decimal_cents(price_text(cents as int).drop_first()) == -cents,
{
    let c = cents as int;
    let m: nat = if c < 0 {
        (-c) as nat
    } else {
        c as nat
    };
    lemma_unsigned_price_text(m);
    lemma_nat_text_digits(m / 100);
    let u = nat_text(m / 100) + fraction_text((m % 100) as int);
    assert(is_digit(u[0]));
    if c < 0 {
        assert(price_text(c) =~= seq!['-'] + u);
        assert((seq!['-'] + u).drop_first() =~= u);
    } else {
        assert(price_text(c) =~= Seq::<char>::empty() + u);
        assert(Seq::<char>::empty() + u =~= u);
    }
}

/// The side named by the first field of a data record: `true` for a buy order,
/// `false` for a sell order; any other text is no side.
pub fn parse_order_type(field: &str) -> (side: Option<TYPE_OF_ORDER>)
    ensures
        side == if field@ == "true"@ {
            Some(TYPE_OF_ORDER::BUY)
        } else if field@ == "false"@ {
            Some(TYPE_OF_ORDER::SELL)
        } else {
            None
        },
{
    let text = String::from_str(field);
    if text == String::from_str("true") {
        Some(TYPE_OF_ORDER::BUY)
    } else if text == String::from_str("false") {
        Some(TYPE_OF_ORDER::SELL)
    } else {
        None
    }
}

/// The quantity in the third field of a data record, read as a `u32`.
pub fn parse_amount(field: &str) -> (amount: Option<u32>)
    ensures
        amount == u32_from_text(field@),
{
    let ghost s = field@;
    let n = field.unicode_len();
    let mut start: usize = 0;
    if n > 0 && field.get_char(0) == '+' {
        start = 1;
    }
    let ghost d = s.subrange(start as int, n as int);
    proof {
        assert(d =~= unsigned_digits(s));
    }
    if start >= n {
        proof {
            assert(d.len() == 0);
            assert(unsigned_digits(field@).len() == 0);
        }
        return None;
    }
    let mut value: u64 = 0;
    let mut too_big = false;
    let mut i = start;
    proof {
        assert(s.subrange(start as int, start as int) =~= Seq::<char>::empty());
    }
    while i < n
        invariant
            start <= i <= n,
            n == s.len(),
            field@ == s,
            d == s.subrange(start as int, n as int),
            d == unsigned_digits(s),
            forall|j: int| start <= j < i ==> is_digit(#[trigger] s[j]),
            !too_big ==> value == digits_value(s.subrange(start as int, i as int)) && value
                <= u32::MAX,
            too_big ==> digits_value(s.subrange(start as int, i as int)) > u32::MAX,
        decreases n - i,
    {
        let c = field.get_char(i);
        if !('0' <= c && c <= '9') {
            proof {
                assert(d[i - start] == c);
                assert(!is_digit(d[i - start]));
            }
            return None;
        }
        let digit = (c as u32 - 48) as u64;
        proof {
            assert(s.subrange(start as int, i + 1).drop_last() =~= s.subrange(start as int, i as int));
            assert(s.subrange(start as int, i + 1).last() == c);
        }
        if !too_big {
            let v = value * 10 + digit;
            if v > 4294967295u64 {
                too_big = true;
            } else {
                value = v;
            }
        }
        i = i + 1;
    }
    proof {
        assert(s.subrange(start as int, n as int) == d);
        assert forall|j: int| 0 <= j < d.len() implies is_digit(#[trigger] d[j]) by {
            assert(d[j] == s[start + j]);
        }
    }
    if too_big {
        None
    } else {
        Some(value as u32)
    }
}

/// The log record of a trade: `Matching`, the new order's price and quantity,
/// `matched with`, the resting order's price and quantity.
pub fn fill_log_record(fill: &Fill) -> (record: Vec<String>)
    ensures
        record@.len() == 6,
        record@[0]@ == "Matching"@,
        record@[1]@ == price_text(fill.new_price as int),
        record@[2]@ == nat_text(fill.new_amount as nat),
        record@[3]@ == "matched with"@,
        record@[4]@ == price_text(fill.resting_price as int),
        record@[5]@ == nat_text(fill.resting_amount as nat),
{
    let mut record: Vec<String> = Vec::new();
    record.push(String::from_str("Matching"));
    record.push(format_price(fill.new_price));
    record.push(format_amount(fill.new_amount));
    record.push(String::from_str("matched with"));
    record.push(format_price(fill.resting_price));
    record.push(format_amount(fill.resting_amount));
    record
}

/// The log record of a generated order: `generation`, its side (`SELL` or
/// `BUY`), its price and its quantity.
pub fn generation_log_record(order: &Order) -> (record: Vec<String>)
    ensures
        record@.len() == 4,
        record@[0]@ == "generation"@,
        record@[1]@ == if order.order_type == TYPE_OF_ORDER::SELL {
            "SELL"@
        } else {
            "BUY"@
        },
        record@[2]@ == price_text(order.price as int),
        record@[3]@ == nat_text(order.amount as nat),
{
    let mut record: Vec<String> = Vec::new();
    record.push(String::from_str("generation"));
    match order.order_type {
        TYPE_OF_ORDER::SELL => record.push(String::from_str("SELL")),
        TYPE_OF_ORDER::BUY => record.push(String::from_str("BUY")),
    }
    record.push(format_price(order.price));
    record.push(format_amount(order.amount));
    record
}

} // verus!
