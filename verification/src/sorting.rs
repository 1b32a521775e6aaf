//! Stable sorting of one side of the book by price.
use vstd::prelude::*;
use crate::order::{Order, TYPE_OF_ORDER, all_open, all_of_type, amount_sum, lemma_amount_sum_insert, lemma_amount_sum_push, with_price, lemma_with_price_concat, lemma_with_price_none, lemma_with_price_take};

verus! {

broadcast use vstd::seq_lib::to_multiset_build, vstd::seq_lib::to_multiset_insert;

/// In a side sorted ascending (`descending == false`) or descending, `a` belongs
/// strictly after `b`.
pub open spec fn goes_after(a: Order, b: Order, descending: bool) -> bool {
    if descending {
        a.price < b.price
    } else {
        a.price > b.price
    }
}

/// No order of `s` stands before one that it belongs after.
pub open spec fn sorted_by_price(s: Seq<Order>, descending: bool) -> bool {
    forall|i: int, j: int| 0 <= i < j < s.len() ==> !goes_after(#[trigger] s[i], #[trigger] s[j], descending)
}

/// `r` is what a stable sort of `s` by price gives: sorted, and at each price the
/// same orders in the same order as in `s`.
pub open spec fn is_stable_sort(r: Seq<Order>, s: Seq<Order>, descending: bool) -> bool {
    &&& sorted_by_price(r, descending)
    &&& forall|p: i64| #[trigger] with_price(r, p) == with_price(s, p)
}

fn strictly_after(a: &Order, b: &Order, descending: bool) -> (res: bool)
    ensures
        res == goes_after(*a, *b, descending),
{
    if descending {
        a.price < b.price
    } else {
        a.price > b.price
    }
}

proof fn lemma_insert_keeps_sorted(r: Seq<Order>, k: int, x: Order, descending: bool)
    requires
        sorted_by_price(r, descending),
        0 <= k <= r.len(),
        forall|j: int| 0 <= j < k ==> !goes_after(#[trigger] r[j], x, descending),
        k < r.len() ==> goes_after(r[k], x, descending),
    ensures
        sorted_by_price(r.insert(k, x), descending),
        forall|j: int| k <= j < r.len() ==> goes_after(#[trigger] r[j], x, descending),
{
    let r2 = r.insert(k, x);
    assert forall|j: int| k <= j < r.len() implies goes_after(#[trigger] r[j], x, descending) by {
        if j > k {
            assert(!goes_after(r[k], r[j], descending));
        }
    }
    assert forall|i: int, j: int| 0 <= i < j < r2.len() implies !goes_after(
        #[trigger] r2[i],
        #[trigger] r2[j],
        descending,
    ) by {
        if j < k {
            assert(r2[i] == r[i] && r2[j] == r[j]);
        } else if j == k {
            assert(r2[i] == r[i]);
        } else if i < k {
            assert(r2[i] == r[i] && r2[j] == r[j - 1]);
            assert(!goes_after(r[i], r[j - 1], descending));
        } else if i == k {
            assert(r2[j] == r[j - 1]);
            assert(goes_after(r[j - 1], x, descending));
        } else {
            assert(r2[i] == r[i - 1] && r2[j] == r[j - 1]);
            assert(!goes_after(r[i - 1], r[j - 1], descending));
        }
    }
}

proof fn lemma_insert_with_price(r: Seq<Order>, k: int, x: Order, descending: bool, p: i64)
    requires
        0 <= k <= r.len(),
        forall|j: int| k <= j < r.len() ==> goes_after(#[trigger] r[j], x, descending),
    ensures
        with_price(r.insert(k, x), p) == if x.price == p {
            with_price(r, p).push(x)
        } else {
            with_price(r, p)
        },
{
    let a = r.take(k);
    let b = r.skip(k);
    assert(r.insert(k, x) =~= a + seq![x] + b);
    assert(r =~= a + b);
    lemma_with_price_concat(a + seq![x], b, p);
    lemma_with_price_concat(a, seq![x], p);
    lemma_with_price_concat(a, b, p);
    assert(seq![x].drop_last() =~= Seq::<Order>::empty());
    assert(seq![x].last() == x);
    assert(with_price(Seq::<Order>::empty(), p) == Seq::<Order>::empty());
    if x.price == p {
        assert(with_price(seq![x], p) =~= seq![x]);
        assert forall|j: int| 0 <= j < b.len() implies #[trigger] b[j].price != p by {
            assert(b[j] == r[k + j]);
        }
        lemma_with_price_none(b, p);
        assert(with_price(a, p) + seq![x] + Seq::<Order>::empty() =~= (with_price(a, p) + Seq::<
            Order,
        >::empty()).push(x));
    } else {
        assert(with_price(seq![x], p) =~= Seq::<Order>::empty());
        assert(with_price(a, p) + Seq::<Order>::empty() =~= with_price(a, p));
    }
}

/// Sorts one side of the book by price, ascending or descending, keeping the
/// orders of equal price in the order they had (a stable sort).
pub fn sort_by_price(orders: &mut Vec<Order>, descending: bool)
    ensures
        is_stable_sort(final(orders)@, old(orders)@, descending),
        final(orders)@.to_multiset() == old(orders)@.to_multiset(),
        amount_sum(final(orders)@) == amount_sum(old(orders)@),
{
    let mut sorted: Vec<Order> = Vec::new();
    let n = orders.len();
    proof {
        assert(orders@.take(0) =~= sorted@);
    }
    for i in 0..n
        invariant
            n == orders.len(),
            sorted_by_price(sorted@, descending),
            forall|p: i64| #[trigger] with_price(sorted@, p) == with_price(orders@.take(i as int), p),
            sorted@.to_multiset() == orders@.take(i as int).to_multiset(),
            amount_sum(sorted@) == amount_sum(orders@.take(i as int)),
    {
        let x = orders[i];
        let mut k: usize = 0;
        while k < sorted.len() && !strictly_after(&sorted[k], &x, descending)
            invariant
                0 <= k <= sorted.len(),
                forall|j: int| 0 <= j < k ==> !goes_after(#[trigger] sorted@[j], x, descending),
            decreases sorted.len() - k,
        {
            k = k + 1;
        }
        proof {
            lemma_insert_keeps_sorted(sorted@, k as int, x, descending);
            assert forall|p: i64| #[trigger]
                with_price(sorted@.insert(k as int, x), p) == with_price(
                    orders@.take(i + 1),
                    p,
                ) by {
                lemma_insert_with_price(sorted@, k as int, x, descending, p);
                lemma_with_price_take(orders@, i as int, p);
            }
            assert(orders@.take(i + 1) =~= orders@.take(i as int).push(x));
            lemma_amount_sum_insert(sorted@, k as int, x);
            lemma_amount_sum_push(orders@.take(i as int), x);
        }
        sorted.insert(k, x);
    }
    proof {
        assert(orders@.take(n as int) =~= orders@);
    }
    *orders = sorted;
}

proof fn lemma_with_price_nonempty(s: Seq<Order>, p: i64)
    requires
        with_price(s, p).len() > 0,
    ensures
        exists|j: int| 0 <= j < s.len() && #[trigger] s[j].price == p,
    decreases s.len(),
{
    if s.last().price == p {
        assert(s[s.len() - 1].price == p);
    } else {
        lemma_with_price_nonempty(s.drop_last(), p);
        let j = choose|j: int| 0 <= j < s.drop_last().len() && #[trigger] s.drop_last()[j].price == p;
        assert(s[j].price == p);
    }
}

proof fn lemma_sorted_drop_last(s: Seq<Order>, descending: bool)
    requires
        sorted_by_price(s, descending),
        s.len() > 0,
    ensures
        sorted_by_price(s.drop_last(), descending),
{
    let t = s.drop_last();
    assert forall|i: int, j: int| 0 <= i < j < t.len() implies !goes_after(
        #[trigger] t[i],
        #[trigger] t[j],
        descending,
    ) by {
        assert(t[i] == s[i] && t[j] == s[j]);
    }
}

/// A stable sort has one result: two sorted sequences with the same orders at
/// each price are equal. So sorting a side that is already sorted leaves it as
/// it is.
pub proof fn law_stable_sort_unique(r: Seq<Order>, s: Seq<Order>, descending: bool)
    requires
        sorted_by_price(r, descending),
        sorted_by_price(s, descending),
        forall|p: i64| #[trigger] with_price(r, p) == with_price(s, p),
    ensures
        r == s,
    decreases r.len() + s.len(),
{
    if r.len() == 0 && s.len() == 0 {
        assert(r =~= s);
    } else if r.len() == 0 {
        assert(with_price(s, s.last().price).len() > 0);
        assert(with_price(r, s.last().price).len() == 0);
    } else if s.len() == 0 {
        assert(with_price(r, r.last().price).len() > 0);
        assert(with_price(s, r.last().price).len() == 0);
    } else {
        let pr = r.last().price;
        let ps = s.last().price;
        assert(with_price(r, pr).len() > 0);
        assert(with_price(s, ps).len() > 0);
        lemma_with_price_nonempty(s, pr);
        lemma_with_price_nonempty(r, ps);
        let js = choose|j: int| 0 <= j < s.len() && #[trigger] s[j].price == pr;
        let jr = choose|j: int| 0 <= j < r.len() && #[trigger] r[j].price == ps;
        if js < s.len() - 1 {
            assert(!goes_after(s[js], s[s.len() - 1], descending));
        }
        if jr < r.len() - 1 {
            assert(!goes_after(r[jr], r[r.len() - 1], descending));
        }
        assert(pr == ps);
        assert(with_price(r, pr).last() == r.last());
        assert(with_price(s, pr).last() == s.last());
        assert(r.last() == s.last());
        lemma_sorted_drop_last(r, descending);
        lemma_sorted_drop_last(s, descending);
        assert forall|p: i64| #[trigger] with_price(r.drop_last(), p) == with_price(s.drop_last(), p) by {
            assert(with_price(r, p) == with_price(s, p));
            if p == pr {
                assert(with_price(r.drop_last(), p) =~= with_price(r, p).drop_last());
                assert(with_price(s.drop_last(), p) =~= with_price(s, p).drop_last());
            }
        }
        law_stable_sort_unique(r.drop_last(), s.drop_last(), descending);
        assert(r =~= r.drop_last().push(r.last()));
        assert(s =~= s.drop_last().push(s.last()));
    }
}

/// Two sequences with the same orders share what holds of each of them.
pub proof fn lemma_same_orders_keep_properties(r: Seq<Order>, s: Seq<Order>, t: TYPE_OF_ORDER)
    requires
        r.to_multiset() == s.to_multiset(),
    ensures
        all_open(s) ==> all_open(r),
        all_of_type(s, t) ==> all_of_type(r, t),
{
    assert forall|k: int| 0 <= k < r.len() implies s.contains(#[trigger] r[k]) by {
        vstd::seq_lib::to_multiset_contains(r, r[k]);
        vstd::seq_lib::to_multiset_contains(s, r[k]);
        assert(r.contains(r[k]));
    }
    if all_open(s) {
        assert forall|k: int| 0 <= k < r.len() implies #[trigger] r[k].amount > 0 by {
            assert(s.contains(r[k]));
            let j = choose|j: int| 0 <= j < s.len() && s[j] == r[k];
            assert(s[j].amount > 0);
        }
    }
    if all_of_type(s, t) {
        assert forall|k: int| 0 <= k < r.len() implies #[trigger] r[k].order_type == t by {
            assert(s.contains(r[k]));
            let j = choose|j: int| 0 <= j < s.len() && s[j] == r[k];
            assert(s[j].order_type == t);
        }
    }
}

} // verus!
