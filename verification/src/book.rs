//! The order book, read as one sequence of resting orders in arrival order.
//!
//! A price level is the subsequence of resting orders sharing an instrument,
//! side, and price; its time priority is the arrival order of the sequence.
//! The functions here find the best price on a side and the front of a
//! level, which is all the matching loop needs.

use vstd::prelude::*;

use crate::orders::{Operation, Order, OrderV};

verus! {

/// The views of a sequence of orders.
pub open spec fn order_views(s: Seq<Order>) -> Seq<OrderV> {
    s.map_values(|o: Order| o@)
}

/// Whether a resting order belongs to the side of the book for `t`.
pub open spec fn side_match(o: OrderV, t: Seq<char>, side: Operation) -> bool {
    o.ticker == t && o.operation == side
}

/// Whether a resting order belongs to the level for `t` at `price`.
pub open spec fn exact_match(o: OrderV, t: Seq<char>, side: Operation, price: u32) -> bool {
    side_match(o, t, side) && o.price == price
}

/// Whether `p1` is at least as good as `p2` for the resting side `side`: a
/// higher bid for resting Buys, a lower ask for resting Sells.
pub open spec fn better(side: Operation, p1: u32, p2: u32) -> bool {
    if side == Operation::Buy {
        p1 >= p2
    } else {
        p1 <= p2
    }
}

/// Whether an incoming order with limit `limit` may trade at the opposite
/// side's price `opposite`: a seller accepts any bid at or above its ask,
/// a buyer any ask at or below its bid.
pub open spec fn acceptable(incoming: Operation, limit: u32, opposite: u32) -> bool {
    if incoming == Operation::Sell {
        opposite >= limit
    } else {
        opposite <= limit
    }
}

/// The best price on the `side` of the book for `t`: the highest resting
/// Buy or the lowest resting Sell, or nothing if the side is empty.
pub open spec fn best_price(book: Seq<OrderV>, t: Seq<char>, side: Operation) -> Option<u32>
    decreases book.len(),
{
    if book.len() == 0 {
        None
    } else {
        let rest = best_price(book.drop_first(), t, side);
        if side_match(book[0], t, side) {
            match rest {
                None => Some(book[0].price),
                Some(q) => if better(side, book[0].price, q) {
                    Some(book[0].price)
                } else {
                    Some(q)
                },
            }
        } else {
            rest
        }
    }
}

/// The index of the first resting order of the level for `t` at `price`,
/// or -1 if the level is empty. This is the order with time priority.
pub open spec fn first_at(book: Seq<OrderV>, t: Seq<char>, side: Operation, price: u32) -> int
    decreases book.len(),
{
    if book.len() == 0 {
        -1
    } else if exact_match(book[0], t, side, price) {
        0
    } else {
        let r = first_at(book.drop_first(), t, side, price);
        if r < 0 {
            -1
        } else {
            r + 1
        }
    }
}

/// The total number of shares resting in the book.
pub open spec fn total_amount(book: Seq<OrderV>) -> nat
    decreases book.len(),
{
    if book.len() == 0 {
        0
    } else {
        book[0].amount as nat + total_amount(book.drop_first())
    }
}

/// Removing a resting order removes exactly its shares from the book total.
pub proof fn lemma_total_amount_remove(book: Seq<OrderV>, i: int)
    requires
        0 <= i < book.len(),
    ensures
        total_amount(book.remove(i)) == total_amount(book) - book[i].amount,
    decreases book.len(),
{
    let b2 = book.remove(i);
    if i == 0 {
        assert(b2 =~= book.drop_first());
    } else {
        assert(b2[0] == book[0]);
        assert(b2.drop_first() =~= book.drop_first().remove(i - 1));
        lemma_total_amount_remove(book.drop_first(), i - 1);
    }
}

/// Replacing a resting order changes the book total by exactly the
/// difference of the two orders' amounts.
pub proof fn lemma_total_amount_update(book: Seq<OrderV>, i: int, o: OrderV)
    requires
        0 <= i < book.len(),
    ensures
        total_amount(book.update(i, o)) == total_amount(book) - book[i].amount + o.amount,
    decreases book.len(),
{
    let b2 = book.update(i, o);
    if i == 0 {
        assert(b2.drop_first() =~= book.drop_first());
    } else {
        assert(b2[0] == book[0]);
        assert(b2.drop_first() =~= book.drop_first().update(i - 1, o));
        lemma_total_amount_update(book.drop_first(), i - 1, o);
    }
}

/// `best_price` is the optimum over the side: a `None` means the side is
/// empty, and a `Some` is the price of some resting order that no other
/// resting order on the side beats.
pub proof fn lemma_best_price(book: Seq<OrderV>, t: Seq<char>, side: Operation)
    ensures
        best_price(book, t, side) is None ==> forall|j: int|
            0 <= j < book.len() ==> !side_match(book[j], t, side),
        best_price(book, t, side) matches Some(p) ==> (exists|j: int|
            0 <= j < book.len() && side_match(book[j], t, side) && book[j].price == p) && forall|
            j: int,
        |
            0 <= j < book.len() && side_match(book[j], t, side) ==> better(side, p, book[j].price),
    decreases book.len(),
{
    if book.len() != 0 {
        lemma_best_price(book.drop_first(), t, side);
        let d = book.drop_first();
        let rest = best_price(d, t, side);
        assert forall|j: int| 1 <= j < book.len() implies d[j - 1] == book[j] by {}
        match rest {
            Some(q) => {
                let jd = choose|jd: int|
                    0 <= jd < d.len() && side_match(d[jd], t, side) && d[jd].price == q;
                assert(side_match(book[jd + 1], t, side) && book[jd + 1].price == q);
            },
            None => {},
        }
        match best_price(book, t, side) {
            Some(p) => {
                assert forall|j: int|
                    0 <= j < book.len() && side_match(book[j], t, side) implies better(
                    side,
                    p,
                    book[j].price,
                ) by {
                    if j > 0 {
                        assert(d[j - 1] == book[j]);
                    }
                }
            },
            None => {
                assert forall|j: int| 0 <= j < book.len() implies !side_match(book[j], t, side) by {
                    if j > 0 {
                        assert(d[j - 1] == book[j]);
                    }
                }
            },
        }
    }
}

/// If some order on the side has price `p` and no order on the side beats
/// `p`, then `p` is the best price.
pub proof fn lemma_best_price_is(
    book: Seq<OrderV>,
    t: Seq<char>,
    side: Operation,
    p: u32,
    w: int,
)
    requires
        0 <= w < book.len(),
        side_match(book[w], t, side),
        book[w].price == p,
        forall|j: int| 0 <= j < book.len() && side_match(book[j], t, side) ==> better(
            side,
            p,
            book[j].price,
        ),
    ensures
        best_price(book, t, side) == Some(p),
{
    lemma_best_price(book, t, side);
    match best_price(book, t, side) {
        None => {
            assert(false);
        },
        Some(q) => {
            let jq = choose|jq: int|
                0 <= jq < book.len() && side_match(book[jq], t, side) && book[jq].price == q;
            assert(better(side, q, p));
            assert(better(side, p, book[jq].price));
        },
    }
}

/// `first_at` finds the front of a level: a -1 means the level is empty,
/// and a non-negative index points at a level member with none before it.
pub proof fn lemma_first_at(book: Seq<OrderV>, t: Seq<char>, side: Operation, price: u32)
    ensures
        first_at(book, t, side, price) == -1 || 0 <= first_at(book, t, side, price) < book.len(),
        first_at(book, t, side, price) == -1 ==> forall|j: int|
            0 <= j < book.len() ==> !exact_match(book[j], t, side, price),
        first_at(book, t, side, price) >= 0 ==> exact_match(
            book[first_at(book, t, side, price)],
            t,
            side,
            price,
        ) && forall|j: int|
            0 <= j < first_at(book, t, side, price) ==> !exact_match(book[j], t, side, price),
    decreases book.len(),
{
    if book.len() != 0 && !exact_match(book[0], t, side, price) {
        lemma_first_at(book.drop_first(), t, side, price);
        let r = first_at(book.drop_first(), t, side, price);
        if r == -1 {
            assert forall|j: int| 0 <= j < book.len() implies !exact_match(
                book[j],
                t,
                side,
                price,
            ) by {
                if j > 0 {
                    assert(book.drop_first()[j - 1] == book[j]);
                }
            }
        } else {
            assert(book.drop_first()[r] == book[r + 1]);
            assert forall|j: int| 0 <= j < r + 1 implies !exact_match(book[j], t, side, price) by {
                if j > 0 {
                    assert(book.drop_first()[j - 1] == book[j]);
                }
            }
        }
    }
}

/// If a level member stands at `i` with none before it, then `i` is
/// exactly what `first_at` returns.
pub proof fn lemma_first_at_is(book: Seq<OrderV>, t: Seq<char>, side: Operation, price: u32, i: int)
    requires
        0 <= i < book.len(),
        exact_match(book[i], t, side, price),
        forall|j: int| 0 <= j < i ==> !exact_match(book[j], t, side, price),
    ensures
        first_at(book, t, side, price) == i,
{
    lemma_first_at(book, t, side, price);
}

/// The best price of a side always has a level front under it.
pub proof fn lemma_best_price_has_first(book: Seq<OrderV>, t: Seq<char>, side: Operation, p: u32)
    requires
        best_price(book, t, side) == Some(p),
    ensures
        0 <= first_at(book, t, side, p) < book.len(),
{
    lemma_best_price(book, t, side);
    lemma_first_at(book, t, side, p);
    let j = choose|j: int| 0 <= j < book.len() && side_match(book[j], t, side) && book[j].price == p;
    assert(exact_match(book[j], t, side, p));
}

/// The best resting price opposite an incoming order for `ticker`: the
/// highest Buy if `side` is Buy, the lowest Sell if `side` is Sell.
pub fn best_opposite_price(orders: &Vec<Order>, ticker: &str, side: Operation) -> (r: Option<u32>)
    ensures
        r == best_price(order_views(orders@), ticker@, side),
{
    let key: String = ticker.to_owned();
    let n = orders.len();
    let mut best: Option<u32> = None;
    let ghost mut w: int = 0;
    let mut i: usize = 0;
    while i < n
        invariant
            n == orders@.len(),
            i <= n,
            key@ == ticker@,
            best is None ==> forall|j: int|
                0 <= j < i ==> !side_match(order_views(orders@)[j], ticker@, side),
            best matches Some(p) ==> 0 <= w < i && side_match(order_views(orders@)[w], ticker@, side)
                && order_views(orders@)[w].price == p && forall|j: int|
                0 <= j < i && side_match(order_views(orders@)[j], ticker@, side) ==> better(
                    side,
                    p,
                    order_views(orders@)[j].price,
                ),
        decreases n - i,
    {
        let o = &orders[i];
        if *o.get_ticker() == key && o.get_operation() == side {
            let p = o.get_price();
            match best {
                None => {
                    best = Some(p);
                    proof {
                        w = i as int;
                    }
                },
                Some(q) => {
                    let takes = match side {
                        Operation::Buy => p >= q,
                        Operation::Sell => p <= q,
                    };
                    if takes {
                        best = Some(p);
                        proof {
                            w = i as int;
                        }
                    }
                },
            }
        }
        i = i + 1;
    }
    proof {
        match best {
            None => {
                lemma_best_price(order_views(orders@), ticker@, side);
            },
            Some(p) => {
                lemma_best_price_is(order_views(orders@), ticker@, side, p, w);
            },
        }
    }
    best
}

/// The index of the order with time priority on the level of `ticker` at
/// `price` on `side`, if the level is not empty.
pub fn first_at_level(orders: &Vec<Order>, ticker: &str, side: Operation, price: u32) -> (r: Option<
    usize,
>)
    ensures
        match r {
            Some(i) => first_at(order_views(orders@), ticker@, side, price) == i && i
                < orders@.len(),
            None => first_at(order_views(orders@), ticker@, side, price) == -1,
        },
{
    let key: String = ticker.to_owned();
    let n = orders.len();
    let mut i: usize = 0;
    while i < n
        invariant
            n == orders@.len(),
            i <= n,
            key@ == ticker@,
            forall|j: int| 0 <= j < i ==> !exact_match(order_views(orders@)[j], ticker@, side, price),
        decreases n - i,
    {
        let o = &orders[i];
        if *o.get_ticker() == key && o.get_operation() == side && o.get_price() == price {
            proof {
                lemma_first_at_is(order_views(orders@), ticker@, side, price, i as int);
            }
            return Some(i);
        }
        i = i + 1;
    }
    proof {
        lemma_first_at(order_views(orders@), ticker@, side, price);
    }
    None
}

} // verus!
