//! The client registry, read as a sequence of accounts, and trade
//! settlement: the atomic two-party update at the heart of every trade.
//!
//! The hazard in settlement is that buyer and seller live in one
//! collection, and a client matching its own resting order would need two
//! simultaneous mutable views of one account. Settlement therefore takes
//! the two accounts by index, detects the same-account case, and applies
//! its net effect — which is no change at all — instead of two transfers.

use vstd::prelude::*;

use crate::clients::{amount_of, balance_update_spec, Client, ClientV};
use crate::errors::ExchangeError;
use crate::orders::Operation;

verus! {

/// The views of a sequence of clients.
pub open spec fn client_views(s: Seq<Client>) -> Seq<ClientV> {
    s.map_values(|c: Client| c@)
}

/// The index of the first account named `name`, or -1 if there is none.
pub open spec fn find_client(cs: Seq<ClientV>, name: Seq<char>) -> int
    decreases cs.len(),
{
    if cs.len() == 0 {
        -1
    } else if cs[0].name == name {
        0
    } else {
        let r = find_client(cs.drop_first(), name);
        if r < 0 {
            -1
        } else {
            r + 1
        }
    }
}

/// Whether an account named `name` is registered.
pub open spec fn registered(cs: Seq<ClientV>, name: Seq<char>) -> bool {
    find_client(cs, name) >= 0
}

/// No two accounts share a name.
pub open spec fn unique_names(cs: Seq<ClientV>) -> bool {
    forall|i: int, j: int| 0 <= i < j < cs.len() ==> cs[i].name != cs[j].name
}

/// The sum of all accounts' cash balances.
pub open spec fn total_cash(cs: Seq<ClientV>) -> nat
    decreases cs.len(),
{
    if cs.len() == 0 {
        0
    } else {
        cs[0].balance as nat + total_cash(cs.drop_first())
    }
}

/// The sum of all accounts' holdings of the instrument `t`.
pub open spec fn total_stock(cs: Seq<ClientV>, t: Seq<char>) -> nat
    decreases cs.len(),
{
    if cs.len() == 0 {
        0
    } else {
        amount_of(cs[0].holdings, t) as nat + total_stock(cs.drop_first(), t)
    }
}

/// `find_client` finds the first account with the given name: a -1 means
/// none exists, and a non-negative index points at an account with that
/// name and none before it.
pub proof fn lemma_find_client(cs: Seq<ClientV>, name: Seq<char>)
    ensures
        find_client(cs, name) == -1 || 0 <= find_client(cs, name) < cs.len(),
        find_client(cs, name) == -1 ==> forall|j: int| 0 <= j < cs.len() ==> cs[j].name != name,
        find_client(cs, name) >= 0 ==> cs[find_client(cs, name)].name == name && forall|j: int|
            0 <= j < find_client(cs, name) ==> cs[j].name != name,
    decreases cs.len(),
{
    if cs.len() != 0 && cs[0].name != name {
        lemma_find_client(cs.drop_first(), name);
        let r = find_client(cs.drop_first(), name);
        if r == -1 {
            assert forall|j: int| 0 <= j < cs.len() implies cs[j].name != name by {
                if j > 0 {
                    assert(cs.drop_first()[j - 1] == cs[j]);
                }
            }
        } else {
            assert(cs.drop_first()[r] == cs[r + 1]);
            assert forall|j: int| 0 <= j < r + 1 implies cs[j].name != name by {
                if j > 0 {
                    assert(cs.drop_first()[j - 1] == cs[j]);
                }
            }
        }
    }
}

/// If an account named `name` stands at `i` with none before it, then `i`
/// is exactly what `find_client` returns.
pub proof fn lemma_find_client_is(cs: Seq<ClientV>, name: Seq<char>, i: int)
    requires
        0 <= i < cs.len(),
        cs[i].name == name,
        forall|j: int| 0 <= j < i ==> cs[j].name != name,
    ensures
        find_client(cs, name) == i,
{
    lemma_find_client(cs, name);
}

/// If no account is named `name`, `find_client` returns -1.
pub proof fn lemma_find_client_none(cs: Seq<ClientV>, name: Seq<char>)
    requires
        forall|j: int| 0 <= j < cs.len() ==> cs[j].name != name,
    ensures
        find_client(cs, name) == -1,
{
    lemma_find_client(cs, name);
}

/// Two registries whose accounts carry the same names in the same order
/// agree on every lookup.
pub proof fn lemma_find_client_same_names(cs1: Seq<ClientV>, cs2: Seq<ClientV>, name: Seq<char>)
    requires
        cs1.len() == cs2.len(),
        forall|i: int| 0 <= i < cs1.len() ==> cs1[i].name == cs2[i].name,
    ensures
        find_client(cs1, name) == find_client(cs2, name),
{
    lemma_find_client(cs1, name);
    lemma_find_client(cs2, name);
    let r1 = find_client(cs1, name);
    let r2 = find_client(cs2, name);
    if r1 >= 0 {
        lemma_find_client_is(cs2, name, r1);
    } else {
        lemma_find_client_none(cs2, name);
    }
}

/// Replacing one account changes the cash total by exactly the difference
/// of the two balances.
pub proof fn lemma_total_cash_update(cs: Seq<ClientV>, i: int, c: ClientV)
    requires
        0 <= i < cs.len(),
    ensures
        total_cash(cs.update(i, c)) == total_cash(cs) - cs[i].balance + c.balance,
    decreases cs.len(),
{
    let cs2 = cs.update(i, c);
    if i == 0 {
        assert(cs2.drop_first() =~= cs.drop_first());
    } else {
        assert(cs2.drop_first() =~= cs.drop_first().update(i - 1, c));
        lemma_total_cash_update(cs.drop_first(), i - 1, c);
    }
}

/// Replacing one account changes the holdings total of each instrument by
/// exactly the difference of the two accounts' holdings of it.
pub proof fn lemma_total_stock_update(cs: Seq<ClientV>, i: int, c: ClientV, t: Seq<char>)
    requires
        0 <= i < cs.len(),
    ensures
        total_stock(cs.update(i, c), t) == total_stock(cs, t) - amount_of(cs[i].holdings, t)
            + amount_of(c.holdings, t),
    decreases cs.len(),
{
    let cs2 = cs.update(i, c);
    if i == 0 {
        assert(cs2.drop_first() =~= cs.drop_first());
    } else {
        assert(cs2.drop_first() =~= cs.drop_first().update(i - 1, c));
        lemma_total_stock_update(cs.drop_first(), i - 1, c, t);
    }
}

/// What settling one trade does to the registry: the buyer at `bi` pays
/// `amount * price` and receives the shares, the seller at `si` delivers
/// the shares and collects the money. When buyer and seller are the same
/// account the two transfers cancel, so the registry is left unchanged
/// after the same feasibility checks. Any failure leaves the registry
/// unchanged.
pub open spec fn settle_spec(
    cs: Seq<ClientV>,
    bi: int,
    si: int,
    t: Seq<char>,
    amount: u32,
    price: u32,
) -> Result<Seq<ClientV>, ExchangeError> {
    if bi == si {
        let c = cs[bi];
        let cost = amount as int * price as int;
        if cost > u32::MAX {
            Err(ExchangeError::AddOverflow)
        } else if c.balance < cost {
            Err(ExchangeError::BuyerDoesntHaveEnoughMoney)
        } else if amount_of(c.holdings, t) < amount {
            Err(ExchangeError::SubtractionOverflow)
        } else {
            Ok(cs)
        }
    } else {
        match balance_update_spec(cs[bi], t, amount, Operation::Buy, price) {
            Err(e) => Err(e),
            Ok(b2) => match balance_update_spec(cs[si], t, amount, Operation::Sell, price) {
                Err(e) => Err(e),
                Ok(s2) => Ok(cs.update(bi, b2).update(si, s2)),
            },
        }
    }
}

/// A successful settlement moves value but never creates or destroys it:
/// the cash total and every instrument's holdings total are unchanged,
/// and every account keeps its name and place.
pub proof fn lemma_settle_conserves(
    cs: Seq<ClientV>,
    bi: int,
    si: int,
    t: Seq<char>,
    amount: u32,
    price: u32,
    cs2: Seq<ClientV>,
)
    requires
        0 <= bi < cs.len(),
        0 <= si < cs.len(),
        settle_spec(cs, bi, si, t, amount, price) == Ok::<Seq<ClientV>, ExchangeError>(cs2),
    ensures
        cs2.len() == cs.len(),
        forall|i: int| 0 <= i < cs.len() ==> cs2[i].name == cs[i].name,
        total_cash(cs2) == total_cash(cs),
        forall|t2: Seq<char>| total_stock(cs2, t2) == total_stock(cs, t2),
{
    if bi == si {
    } else {
        let cost = amount as int * price as int;
        let b2 = balance_update_spec(cs[bi], t, amount, Operation::Buy, price)->Ok_0;
        let s2 = balance_update_spec(cs[si], t, amount, Operation::Sell, price)->Ok_0;
        assert(b2.balance == cs[bi].balance - cost);
        assert(s2.balance == cs[si].balance + cost);
        crate::clients::lemma_set_amount_of(
            cs[bi].holdings,
            t,
            (amount_of(cs[bi].holdings, t) + amount) as u32,
        );
        crate::clients::lemma_set_amount_of(
            cs[si].holdings,
            t,
            (amount_of(cs[si].holdings, t) - amount) as u32,
        );
        assert(amount_of(b2.holdings, t) == amount_of(cs[bi].holdings, t) + amount);
        assert(amount_of(s2.holdings, t) == amount_of(cs[si].holdings, t) - amount);
        let mid = cs.update(bi, b2);
        lemma_total_cash_update(cs, bi, b2);
        lemma_total_cash_update(mid, si, s2);
        assert(mid[si] == cs[si]);
        assert forall|t2: Seq<char>| total_stock(cs2, t2) == total_stock(cs, t2) by {
            lemma_total_stock_update(cs, bi, b2, t2);
            lemma_total_stock_update(mid, si, s2, t2);
            if t2 != t {
                assert(amount_of(b2.holdings, t2) == amount_of(cs[bi].holdings, t2));
                assert(amount_of(s2.holdings, t2) == amount_of(cs[si].holdings, t2));
            }
        }
    }
}

/// Settles one trade between the accounts at `buyer` and `seller`: the
/// buyer pays `amount * price` and receives `amount` shares of `ticker`,
/// the seller the reverse. All checks run before any change, so a failure
/// leaves both accounts exactly as they were; when the two indices name
/// the same account its net change is zero and it is left untouched.
pub fn settle_trade(
    clients: &mut Vec<Client>,
    buyer: usize,
    seller: usize,
    ticker: &str,
    amount: u32,
    price: u32,
) -> (r: Result<(), ExchangeError>)
    requires
        buyer < old(clients)@.len(),
        seller < old(clients)@.len(),
    ensures
        final(clients)@.len() == old(clients)@.len(),
        match r {
            Ok(()) => settle_spec(
                client_views(old(clients)@),
                buyer as int,
                seller as int,
                ticker@,
                amount,
                price,
            ) == Ok::<Seq<ClientV>, ExchangeError>(client_views(final(clients)@)),
            Err(e) => client_views(final(clients)@) == client_views(old(clients)@) && settle_spec(
                client_views(old(clients)@),
                buyer as int,
                seller as int,
                ticker@,
                amount,
                price,
            ) == Err::<Seq<ClientV>, ExchangeError>(e),
        },
{
    let ghost cs = client_views(clients@);
    let cost = match amount.checked_mul(price) {
        Some(c) => c,
        None => {
            return Err(ExchangeError::AddOverflow);
        },
    };
    if buyer == seller {
        let c = &clients[buyer];
        if c.get_balance() < cost {
            return Err(ExchangeError::BuyerDoesntHaveEnoughMoney);
        }
        if c.get_amount_of_stock(ticker) < amount {
            return Err(ExchangeError::SubtractionOverflow);
        }
        return Ok(());
    }
    // Check everything that could still fail before mutating anything, so
    // that the two one-sided updates below can never be applied halfway.
    let cb = &clients[buyer];
    if cb.get_balance() < cost {
        return Err(ExchangeError::BuyerDoesntHaveEnoughMoney);
    }
    if cb.get_amount_of_stock(ticker).checked_add(amount).is_none() {
        return Err(ExchangeError::AddOverflow);
    }
    let sc = &clients[seller];
    if sc.get_amount_of_stock(ticker) < amount {
        return Err(ExchangeError::SubtractionOverflow);
    }
    if sc.get_balance().checked_add(cost).is_none() {
        return Err(ExchangeError::AddOverflow);
    }
    let b = &mut clients[buyer];
    let rb = b.update_balance(ticker, amount, Operation::Buy, price);
    match rb {
        Err(_) => {
            proof {
                assert(false);
            }
            Err(ExchangeError::AddOverflow)
        },
        Ok(()) => {
            proof {
                assert(client_views(clients@) =~= cs.update(
                    buyer as int,
                    balance_update_spec(
                        cs[buyer as int],
                        ticker@,
                        amount,
                        Operation::Buy,
                        price,
                    )->Ok_0,
                ));
            }
            let s = &mut clients[seller];
            let rs = s.update_balance(ticker, amount, Operation::Sell, price);
            match rs {
                Err(_) => {
                    proof {
                        assert(false);
                    }
                    Err(ExchangeError::AddOverflow)
                },
                Ok(()) => {
                    proof {
                        let b2 = balance_update_spec(
                            cs[buyer as int],
                            ticker@,
                            amount,
                            Operation::Buy,
                            price,
                        )->Ok_0;
                        let s2 = balance_update_spec(
                            cs[seller as int],
                            ticker@,
                            amount,
                            Operation::Sell,
                            price,
                        )->Ok_0;
                        assert(client_views(clients@) =~= cs.update(buyer as int, b2).update(
                            seller as int,
                            s2,
                        ));
                    }
                    Ok(())
                },
            }
        },
    }
}

} // verus!
