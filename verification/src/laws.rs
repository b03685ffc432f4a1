//! The exchange's guarantees, stated and proved over the functional
//! specifications of `add_client` and `operate`.

use vstd::prelude::*;

use crate::book::{acceptable, best_price, exact_match, first_at, side_match};
use crate::clients::{amount_of, ClientV};
use crate::engine::{add_client_spec, exchange_wf, match_rec, operate_spec, ExchangeV};
use crate::errors::ExchangeError;
use crate::orders::{Operation, OrderV};
use crate::registry::{
    find_client, lemma_find_client, registered, settle_spec, total_cash, total_stock,
};

verus! {

/// Conservation: a submission moves value but never creates or destroys
/// it. Whatever the order and whatever the outcome, the sum of all
/// accounts' cash balances and, for every instrument, the sum of all
/// accounts' holdings of it are exactly what they were before. Applied to
/// each step of a sequence of submissions, the totals are invariant over
/// the whole sequence.
pub proof fn lemma_conservation(s: ExchangeV, o: OrderV)
    ensures
        total_cash(operate_spec(s, o).0.clients) == total_cash(s.clients),
        forall|t: Seq<char>| total_stock(operate_spec(s, o).0.clients, t) == total_stock(
            s.clients,
            t,
        ),
{
    crate::engine::lemma_match_rec_conserves(s.clients, s.orders, o);
}

/// The state after a whole sequence of submissions, applied in order.
pub open spec fn operate_all(s: ExchangeV, os: Seq<OrderV>) -> ExchangeV
    decreases os.len(),
{
    if os.len() == 0 {
        s
    } else {
        operate_all(operate_spec(s, os[0]).0, os.drop_first())
    }
}

/// Conservation over any sequence of submissions: however many orders are
/// submitted, in whatever mix of fills, partial fills, rests, rejections
/// and no-ops, the cash total and every instrument's holdings total end
/// exactly where they started.
pub proof fn lemma_conservation_sequence(s: ExchangeV, os: Seq<OrderV>)
    ensures
        total_cash(operate_all(s, os).clients) == total_cash(s.clients),
        forall|t: Seq<char>| total_stock(operate_all(s, os).clients, t) == total_stock(
            s.clients,
            t,
        ),
    decreases os.len(),
{
    if os.len() != 0 {
        lemma_conservation(s, os[0]);
        lemma_conservation_sequence(operate_spec(s, os[0]).0, os.drop_first());
    }
}

/// No negative state: balances and holdings are counts of whole units
/// that cannot go below zero, so no sequence of operations can drive any
/// account's cash or any holding negative.
pub proof fn lemma_no_negative_state(s: ExchangeV)
    ensures
        forall|i: int| 0 <= i < s.clients.len() ==> s.clients[i].balance >= 0,
        forall|i: int, j: int|
            0 <= i < s.clients.len() && 0 <= j < s.clients[i].holdings.len()
                ==> s.clients[i].holdings[j].amount >= 0,
        forall|j: int| 0 <= j < s.orders.len() ==> s.orders[j].amount >= 0,
{
}

/// An infeasible Sell is a no-op: a client selling more shares than it
/// holds leaves the book and every account exactly as they were, and the
/// submission still succeeds.
pub proof fn lemma_infeasible_sell_is_noop(s: ExchangeV, o: OrderV)
    requires
        registered(s.clients, o.client),
        o.operation == Operation::Sell,
        amount_of(s.clients[find_client(s.clients, o.client)].holdings, o.ticker) < o.amount,
    ensures
        operate_spec(s, o) == (s, Ok::<(), ExchangeError>(())),
{
}

/// An infeasible Buy is a no-op: a client bidding more than its whole
/// balance covers leaves the book and every account exactly as they were,
/// and the submission still succeeds.
pub proof fn lemma_infeasible_buy_is_noop(s: ExchangeV, o: OrderV)
    requires
        registered(s.clients, o.client),
        o.operation == Operation::Buy,
        o.price as int * o.amount as int <= u32::MAX,
        (s.clients[find_client(s.clients, o.client)].balance as int) < o.price as int
            * o.amount as int,
    ensures
        operate_spec(s, o) == (s, Ok::<(), ExchangeError>(())),
{
}

/// Duplicate registration is rejected: once a registration under a name
/// has succeeded, a second registration under the same name fails with
/// `UserAlreadyRegistered` and leaves the first registration's state
/// untouched.
pub proof fn lemma_duplicate_registration_rejected(s: ExchangeV, c1: ClientV, c2: ClientV)
    requires
        add_client_spec(s, c1).1 == Ok::<(), ExchangeError>(()),
        c2.name == c1.name,
    ensures
        add_client_spec(add_client_spec(s, c1).0, c2) == (
            add_client_spec(s, c1).0,
            Err::<(), ExchangeError>(ExchangeError::UserAlreadyRegistered),
        ),
{
    let s1 = add_client_spec(s, c1).0;
    lemma_find_client(s1.clients, c2.name);
    if find_client(s1.clients, c2.name) == -1 {
        assert(s1.clients[s1.clients.len() - 1].name == c2.name);
        assert(false);
    }
}

/// Price-time priority: with two resting Sells at one price on one
/// instrument, O1 resting before O2, an incoming Buy for fewer shares
/// than O1 offers fills entirely against O1 — O1 shrinks by the incoming
/// amount and O2 is left untouched. The remaining premises say only that
/// both parties can actually carry the trade out: the buyer's balance
/// covers its own order, the resting seller is solvent for its whole
/// order and holds the shares it offers, and no counter or balance
/// overflows.
pub proof fn lemma_price_time_priority(s: ExchangeV, o1: OrderV, o2: OrderV, inc: OrderV)
    requires
        exchange_wf(s),
        s.orders == seq![o1, o2],
        o1.operation == Operation::Sell,
        o2.operation == Operation::Sell,
        o2.ticker == o1.ticker,
        o2.price == o1.price,
        inc.operation == Operation::Buy,
        inc.ticker == o1.ticker,
        inc.price >= o1.price,
        0 < inc.amount < o1.amount,
        registered(s.clients, inc.client),
        inc.price as int * inc.amount as int <= u32::MAX,
        inc.price as int * inc.amount as int <= s.clients[find_client(
            s.clients,
            inc.client,
        )].balance as int,
        o1.amount as int * o1.price as int <= u32::MAX,
        o1.amount as int * o1.price as int <= s.clients[find_client(
            s.clients,
            o1.client,
        )].balance as int,
        amount_of(s.clients[find_client(s.clients, o1.client)].holdings, o1.ticker) >= o1.amount,
        amount_of(s.clients[find_client(s.clients, inc.client)].holdings, inc.ticker) as int
            + inc.amount as int <= u32::MAX,
        s.clients[find_client(s.clients, o1.client)].balance as int + o1.amount as int
            * o1.price as int <= u32::MAX,
    ensures
        operate_spec(s, inc).1 == Ok::<(), ExchangeError>(()),
        operate_spec(s, inc).0.orders == seq![
            OrderV { amount: (o1.amount - inc.amount) as u32, ..o1 },
            o2,
        ],
{
    let cs = s.clients;
    let book = s.orders;
    let bi = find_client(cs, inc.client);
    let si = find_client(cs, o1.client);
    lemma_find_client(cs, inc.client);
    lemma_find_client(cs, o1.client);
    assert(book[0] == o1 && book[1] == o2);
    assert(registered(cs, o1.client));
    assert(side_match(o1, inc.ticker, Operation::Sell));
    assert(side_match(o2, inc.ticker, Operation::Sell));
    assert(best_price(Seq::<OrderV>::empty(), inc.ticker, Operation::Sell) is None);
    assert(seq![o2].drop_first() =~= Seq::<OrderV>::empty());
    assert(seq![o2][0] == o2);
    assert(best_price(seq![o2], inc.ticker, Operation::Sell) == Some(o2.price));
    assert(book.drop_first() =~= seq![o2]);
    assert(best_price(book, inc.ticker, Operation::Sell) == Some(o1.price));
    assert(acceptable(inc.operation, inc.price, o1.price));
    assert(exact_match(o1, inc.ticker, Operation::Sell, o1.price));
    assert(first_at(book, inc.ticker, Operation::Sell, o1.price) == 0);
    let a: u32 = inc.amount;
    let am = inc.amount as int;
    let p0 = o1.price as int;
    let pi = inc.price as int;
    let ra = o1.amount as int;
    assert(am * p0 <= pi * am) by (nonlinear_arith)
        requires
            0 <= am,
            0 <= p0 <= pi,
    ;
    assert(am * p0 <= ra * p0) by (nonlinear_arith)
        requires
            0 <= p0,
            0 <= am <= ra,
    ;
    let cost = a as int * o1.price as int;
    assert(cost == am * p0);
    assert(settle_spec(cs, bi, si, inc.ticker, a, o1.price) is Ok);
    let cs2 = settle_spec(cs, bi, si, inc.ticker, a, o1.price)->Ok_0;
    let book2 = book.update(0, OrderV { amount: (o1.amount - a) as u32, ..o1 });
    let inc2 = OrderV { amount: (inc.amount - a) as u32, ..inc };
    assert(match_rec(cs, book, inc) == match_rec(cs2, book2, inc2));
    assert(match_rec(cs2, book2, inc2) == (cs2, book2, inc2));
    assert(book2 =~= seq![OrderV { amount: (o1.amount - inc.amount) as u32, ..o1 }, o2]);
}

/// Price improvement: a trade executes at the resting order's limit
/// price. An incoming Buy bidding at or above a resting Sell's ask pays
/// the resting ask for every share traded — never its own higher limit.
/// The remaining premises say only that the two distinct parties can
/// actually carry the trade out, as in `lemma_price_time_priority`.
pub proof fn lemma_price_improvement(s: ExchangeV, o1: OrderV, inc: OrderV)
    requires
        exchange_wf(s),
        s.orders == seq![o1],
        o1.operation == Operation::Sell,
        inc.operation == Operation::Buy,
        inc.ticker == o1.ticker,
        inc.price >= o1.price,
        inc.amount > 0,
        inc.client != o1.client,
        registered(s.clients, inc.client),
        inc.price as int * inc.amount as int <= u32::MAX,
        inc.price as int * inc.amount as int <= s.clients[find_client(
            s.clients,
            inc.client,
        )].balance as int,
        o1.amount as int * o1.price as int <= u32::MAX,
        o1.amount as int * o1.price as int <= s.clients[find_client(
            s.clients,
            o1.client,
        )].balance as int,
        amount_of(s.clients[find_client(s.clients, o1.client)].holdings, o1.ticker) >= o1.amount,
        amount_of(s.clients[find_client(s.clients, inc.client)].holdings, inc.ticker) as int
            + inc.amount as int <= u32::MAX,
        s.clients[find_client(s.clients, o1.client)].balance as int + o1.amount as int
            * o1.price as int <= u32::MAX,
    ensures
        operate_spec(s, inc).1 == Ok::<(), ExchangeError>(()),
        ({
            let bi = find_client(s.clients, inc.client);
            let a: u32 = if inc.amount < o1.amount {
                inc.amount
            } else {
                o1.amount
            };
            operate_spec(s, inc).0.clients[bi].balance == s.clients[bi].balance - a as int
                * o1.price as int
        }),
{
    let cs = s.clients;
    let book = s.orders;
    let bi = find_client(cs, inc.client);
    let si = find_client(cs, o1.client);
    lemma_find_client(cs, inc.client);
    lemma_find_client(cs, o1.client);
    assert(book[0] == o1);
    assert(registered(cs, o1.client));
    assert(bi != si);
    assert(side_match(o1, inc.ticker, Operation::Sell));
    assert(best_price(Seq::<OrderV>::empty(), inc.ticker, Operation::Sell) is None);
    assert(book.drop_first() =~= Seq::<OrderV>::empty());
    assert(best_price(book, inc.ticker, Operation::Sell) == Some(o1.price));
    assert(acceptable(inc.operation, inc.price, o1.price));
    assert(exact_match(o1, inc.ticker, Operation::Sell, o1.price));
    assert(first_at(book, inc.ticker, Operation::Sell, o1.price) == 0);
    let a: u32 = if inc.amount < o1.amount {
        inc.amount
    } else {
        o1.amount
    };
    let av = a as int;
    let am = inc.amount as int;
    let p0 = o1.price as int;
    let pi = inc.price as int;
    let ra = o1.amount as int;
    assert(av * p0 <= pi * am) by (nonlinear_arith)
        requires
            0 <= av <= am,
            0 <= p0 <= pi,
    ;
    assert(av * p0 <= ra * p0) by (nonlinear_arith)
        requires
            0 <= p0,
            0 <= av <= ra,
    ;
    let cost = a as int * o1.price as int;
    assert(cost == av * p0);
    assert(o1.amount > 0);
    assert(a > 0);
    assert(settle_spec(cs, bi, si, inc.ticker, a, o1.price) is Ok);
    let cs2 = settle_spec(cs, bi, si, inc.ticker, a, o1.price)->Ok_0;
    assert(cs2[bi].balance == cs[bi].balance - cost);
    let inc2 = OrderV { amount: (inc.amount - a) as u32, ..inc };
    if a == o1.amount {
        let book2 = book.remove(0);
        assert(book2 =~= Seq::<OrderV>::empty());
        assert(match_rec(cs, book, inc) == match_rec(cs2, book2, inc2));
        assert(match_rec(cs2, book2, inc2) == (cs2, book2, inc2));
    } else {
        let book2 = book.update(0, OrderV { amount: (o1.amount - a) as u32, ..o1 });
        assert(match_rec(cs, book, inc) == match_rec(cs2, book2, inc2));
        assert(inc2.amount == 0);
        assert(match_rec(cs2, book2, inc2) == (cs2, book2, inc2));
    }
}

} // verus!
