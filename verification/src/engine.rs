//! The matching engine: one owned aggregate of the client registry and the
//! order book, mutated only through `add_client` and `operate`.
//!
//! `operate` runs one submission to completion: it validates the order,
//! walks the opposite side of the book from the best price outward under
//! price-time priority, settles each trade through the registry, and rests
//! any unmatched remainder on the order's own side. The whole pass is
//! specified by the recursive function `match_rec`, and `operate` is proved
//! to return exactly what `operate_spec` says.

use vstd::prelude::*;

use crate::book::{
    acceptable, best_opposite_price, best_price, first_at, first_at_level,
    lemma_best_price_has_first, lemma_first_at, lemma_total_amount_remove,
    lemma_total_amount_update, order_views, total_amount,
};
use crate::clients::{amount_of, Client, ClientV};
use crate::errors::ExchangeError;
use crate::orders::{Operation, Order, OrderV};
use crate::registry::{
    client_views, find_client, lemma_find_client, lemma_find_client_is, lemma_find_client_none,
    lemma_settle_conserves, registered, settle_spec, settle_trade, total_cash, total_stock,
    unique_names,
};

verus! {

/// The mathematical image of the whole exchange: the registry's accounts
/// and the book's resting orders, each in insertion order.
pub struct ExchangeV {
    pub clients: Seq<ClientV>,
    pub orders: Seq<OrderV>,
}

/// A well-formed exchange: client names are unique, and every resting
/// order has shares left and a registered owner.
pub open spec fn exchange_wf(s: ExchangeV) -> bool {
    &&& unique_names(s.clients)
    &&& forall|j: int|
        0 <= j < s.orders.len() ==> s.orders[j].amount > 0 && registered(
            s.clients,
            s.orders[j].client,
        )
}

/// One full matching pass of the incoming order `inc` against the book.
///
/// While `inc` has shares left and the opposite side quotes an acceptable
/// price, the order at the front of the best opposite level is examined:
/// an owner who can no longer cover its whole resting order is removed
/// without trading, a failing settlement removes the resting order and
/// moves on, and a successful settlement trades the smaller of the two
/// amounts at the resting order's price, shrinking or removing the resting
/// order. The result is the registry, the book, and what is left of `inc`.
pub open spec fn match_rec(cs: Seq<ClientV>, book: Seq<OrderV>, inc: OrderV) -> (
    Seq<ClientV>,
    Seq<OrderV>,
    OrderV,
)
    decreases book.len() + total_amount(book),
    via match_rec_dec
{
    if inc.amount == 0 {
        (cs, book, inc)
    } else {
        match best_price(book, inc.ticker, inc.operation.spec_opposite()) {
            None => (cs, book, inc),
            Some(p) => {
                if !acceptable(inc.operation, inc.price, p) {
                    (cs, book, inc)
                } else {
                    let i = first_at(book, inc.ticker, inc.operation.spec_opposite(), p);
                    if i < 0 {
                        (cs, book, inc)
                    } else {
                        let r = book[i];
                        let ri = find_client(cs, r.client);
                        let rcost = r.amount as int * r.price as int;
                        if ri < 0 || rcost > u32::MAX || (cs[ri].balance as int) < rcost {
                            match_rec(cs, book.remove(i), inc)
                        } else {
                            let a: u32 = if inc.amount < r.amount {
                                inc.amount
                            } else {
                                r.amount
                            };
                            let bi = if inc.operation == Operation::Buy {
                                find_client(cs, inc.client)
                            } else {
                                ri
                            };
                            let si = if inc.operation == Operation::Buy {
                                ri
                            } else {
                                find_client(cs, inc.client)
                            };
                            if bi < 0 || si < 0 {
                                (cs, book, inc)
                            } else {
                                match settle_spec(cs, bi, si, inc.ticker, a, r.price) {
                                    Err(_) => match_rec(cs, book.remove(i), inc),
                                    Ok(cs2) => {
                                        let book2 = if r.amount == a {
                                            book.remove(i)
                                        } else {
                                            book.update(
                                                i,
                                                OrderV { amount: (r.amount - a) as u32, ..r },
                                            )
                                        };
                                        match_rec(
                                            cs2,
                                            book2,
                                            OrderV { amount: (inc.amount - a) as u32, ..inc },
                                        )
                                    },
                                }
                            }
                        }
                    }
                }
            },
        }
    }
}

#[via_fn]
proof fn match_rec_dec(cs: Seq<ClientV>, book: Seq<OrderV>, inc: OrderV) {
    if inc.amount != 0 {
        let opp = inc.operation.spec_opposite();
        match best_price(book, inc.ticker, opp) {
            None => {},
            Some(p) => {
                if acceptable(inc.operation, inc.price, p) {
                    let i = first_at(book, inc.ticker, opp, p);
                    if i >= 0 {
                        lemma_first_at(book, inc.ticker, opp, p);
                        lemma_total_amount_remove(book, i);
                        let r = book[i];
                        let a: u32 = if inc.amount < r.amount {
                            inc.amount
                        } else {
                            r.amount
                        };
                        if r.amount != a {
                            lemma_total_amount_update(
                                book,
                                i,
                                OrderV { amount: (r.amount - a) as u32, ..r },
                            );
                        }
                    }
                }
            },
        }
    }
}

/// What one registration does: a duplicate name is rejected and changes
/// nothing, any other account is appended to the registry.
pub open spec fn add_client_spec(s: ExchangeV, c: ClientV) -> (ExchangeV, Result<
    (),
    ExchangeError,
>) {
    if registered(s.clients, c.name) {
        (s, Err(ExchangeError::UserAlreadyRegistered))
    } else {
        (ExchangeV { clients: s.clients.push(c), orders: s.orders }, Ok(()))
    }
}

/// What one submission does. An unregistered client is rejected; an
/// infeasible order — a Sell of more shares than the client holds, or a
/// Buy whose full cost exceeds the client's balance — is accepted as a
/// no-op; a Buy whose cost overflows is rejected. Anything else runs the
/// matching pass of `match_rec`, and a remainder with shares left rests
/// at the end of the book.
pub open spec fn operate_spec(s: ExchangeV, o: OrderV) -> (ExchangeV, Result<(), ExchangeError>) {
    let ci = find_client(s.clients, o.client);
    if ci < 0 {
        (s, Err(ExchangeError::UnknownUser))
    } else if o.operation == Operation::Sell && amount_of(s.clients[ci].holdings, o.ticker)
        < o.amount {
        (s, Ok(()))
    } else if o.operation == Operation::Buy && o.price as int * o.amount as int > u32::MAX {
        (s, Err(ExchangeError::AddOverflow))
    } else if o.operation == Operation::Buy && (s.clients[ci].balance as int) < o.price as int
        * o.amount as int {
        (s, Ok(()))
    } else {
        let m = match_rec(s.clients, s.orders, o);
        let book3 = if m.2.amount > 0 {
            m.1.push(m.2)
        } else {
            m.1
        };
        (ExchangeV { clients: m.0, orders: book3 }, Ok(()))
    }
}

/// A matching pass moves value but never creates or destroys it: the cash
/// total and every instrument's holdings total are unchanged, and every
/// account keeps its name and place.
pub proof fn lemma_match_rec_conserves(cs: Seq<ClientV>, book: Seq<OrderV>, inc: OrderV)
    ensures
        ({
            let m = match_rec(cs, book, inc);
            &&& m.0.len() == cs.len()
            &&& forall|i: int| 0 <= i < cs.len() ==> m.0[i].name == cs[i].name
            &&& total_cash(m.0) == total_cash(cs)
            &&& forall|t: Seq<char>| total_stock(m.0, t) == total_stock(cs, t)
        }),
    decreases book.len() + total_amount(book),
{
    if inc.amount != 0 {
        let opp = inc.operation.spec_opposite();
        match best_price(book, inc.ticker, opp) {
            None => {},
            Some(p) => {
                if acceptable(inc.operation, inc.price, p) {
                    let i = first_at(book, inc.ticker, opp, p);
                    if i >= 0 {
                        lemma_first_at(book, inc.ticker, opp, p);
                        lemma_total_amount_remove(book, i);
                        let r = book[i];
                        let ri = find_client(cs, r.client);
                        let rcost = r.amount as int * r.price as int;
                        if ri < 0 || rcost > u32::MAX || (cs[ri].balance as int) < rcost {
                            lemma_match_rec_conserves(cs, book.remove(i), inc);
                        } else {
                            let a: u32 = if inc.amount < r.amount {
                                inc.amount
                            } else {
                                r.amount
                            };
                            let bi = if inc.operation == Operation::Buy {
                                find_client(cs, inc.client)
                            } else {
                                ri
                            };
                            let si = if inc.operation == Operation::Buy {
                                ri
                            } else {
                                find_client(cs, inc.client)
                            };
                            if bi >= 0 && si >= 0 {
                                lemma_find_client(cs, r.client);
                                lemma_find_client(cs, inc.client);
                                match settle_spec(cs, bi, si, inc.ticker, a, r.price) {
                                    Err(_) => {
                                        lemma_match_rec_conserves(cs, book.remove(i), inc);
                                    },
                                    Ok(cs2) => {
                                        lemma_settle_conserves(
                                            cs,
                                            bi,
                                            si,
                                            inc.ticker,
                                            a,
                                            r.price,
                                            cs2,
                                        );
                                        let book2 = if r.amount == a {
                                            book.remove(i)
                                        } else {
                                            book.update(
                                                i,
                                                OrderV { amount: (r.amount - a) as u32, ..r },
                                            )
                                        };
                                        if r.amount != a {
                                            lemma_total_amount_update(
                                                book,
                                                i,
                                                OrderV { amount: (r.amount - a) as u32, ..r },
                                            );
                                        }
                                        lemma_match_rec_conserves(
                                            cs2,
                                            book2,
                                            OrderV { amount: (inc.amount - a) as u32, ..inc },
                                        );
                                    },
                                }
                            }
                        }
                    }
                }
            },
        }
    }
}

/// The exchange: the client registry and the order book, owned together
/// so that a submission's updates to both are atomic with respect to any
/// other submission.
#[derive(Debug)]
pub struct ExchangeOperation {
    clients: Vec<Client>,
    orders: Vec<Order>,
}

impl View for ExchangeOperation {
    type V = ExchangeV;

    closed spec fn view(&self) -> ExchangeV {
        ExchangeV {
            clients: client_views(self.clients@),
            orders: order_views(self.orders@),
        }
    }
}

impl ExchangeOperation {
    /// A well-formed exchange; established by `new` and preserved by every
    /// operation.
    pub open spec fn wf(self) -> bool {
        exchange_wf(self@)
    }

    /// An exchange with no clients and no resting orders.
    pub fn new() -> (r: ExchangeOperation)
        ensures
            r@.clients == Seq::<ClientV>::empty(),
            r@.orders == Seq::<OrderV>::empty(),
            r.wf(),
    {
        let r = ExchangeOperation { clients: Vec::new(), orders: Vec::new() };
        proof {
            assert(r@.clients =~= Seq::<ClientV>::empty());
            assert(r@.orders =~= Seq::<OrderV>::empty());
        }
        r
    }

    /// The index of the registered client named `name`, if there is one.
    fn find_client_index(&self, name: &str) -> (r: Option<usize>)
        ensures
            match r {
                Some(i) => find_client(self@.clients, name@) == i as int && i
                    < self.clients@.len(),
                None => find_client(self@.clients, name@) == -1,
            },
    {
        let key: String = name.to_owned();
        let n = self.clients.len();
        let mut i: usize = 0;
        while i < n
            invariant
                n == self.clients@.len(),
                i <= n,
                key@ == name@,
                forall|j: int| 0 <= j < i ==> self@.clients[j].name != name@,
            decreases n - i,
        {
            let c = &self.clients[i];
            if *c.get_name() == key {
                proof {
                    lemma_find_client_is(self@.clients, name@, i as int);
                }
                return Some(i);
            }
            i = i + 1;
        }
        proof {
            lemma_find_client_none(self@.clients, name@);
        }
        None
    }

    /// Registers `client`, failing without any change if its name is
    /// already taken.
    pub fn add_client(&mut self, client: Client) -> (r: Result<(), ExchangeError>)
        requires
            old(self).wf(),
        ensures
            final(self).wf(),
            (final(self)@, r) == add_client_spec(old(self)@, client@),
    {
        let ghost s0 = self@;
        match self.find_client_index(client.get_name().as_str()) {
            Some(_) => Err(ExchangeError::UserAlreadyRegistered),
            None => {
                proof {
                    lemma_find_client(s0.clients, client@.name);
                }
                self.clients.push(client);
                proof {
                    assert(self@.clients =~= s0.clients.push(client@));
                    assert(self@.orders =~= s0.orders);
                    assert(unique_names(self@.clients)) by {
                        assert(forall|j: int|
                            0 <= j < s0.clients.len() ==> s0.clients[j].name != client@.name);
                    }
                    assert forall|j: int| 0 <= j < self@.orders.len() implies self@.orders[j].amount
                        > 0 && registered(self@.clients, self@.orders[j].client) by {
                        let k = find_client(s0.clients, s0.orders[j].client);
                        lemma_find_client(s0.clients, s0.orders[j].client);
                        lemma_find_client_is(self@.clients, s0.orders[j].client, k);
                    }
                    assert(self@ == add_client_spec(s0, client@).0);
                }
                Ok(())
            },
        }
    }

    /// Runs one submission to completion: validates it, matches it against
    /// the opposite side of the book under price-time priority, settles
    /// each trade, and rests any unmatched remainder. Exactly what happens
    /// is `operate_spec`; on top of it, the sums of all balances and of
    /// each instrument's holdings never change.
    pub fn operate(&mut self, new_order: Order) -> (r: Result<(), ExchangeError>)
        requires
            old(self).wf(),
        ensures
            final(self).wf(),
            (final(self)@, r) == operate_spec(old(self)@, new_order@),
            total_cash(final(self)@.clients) == total_cash(old(self)@.clients),
            forall|t: Seq<char>| total_stock(final(self)@.clients, t) == total_stock(
                old(self)@.clients,
                t,
            ),
    {
        let ghost s0 = self@;
        let ghost ov0 = new_order@;
        let ci: usize = match self.find_client_index(new_order.get_client().as_str()) {
            Some(i) => i,
            None => {
                return Err(ExchangeError::UnknownUser);
            },
        };
        let side = new_order.get_operation();
        let price: u32 = new_order.get_price();
        let amt0: u32 = new_order.get_amount();
        match side {
            Operation::Sell => {
                let c = &self.clients[ci];
                if c.get_amount_of_stock(new_order.get_ticker().as_str()) < amt0 {
                    return Ok(());
                }
            },
            Operation::Buy => {
                let cost0: u32 = match price.checked_mul(amt0) {
                    Some(c) => c,
                    None => {
                        return Err(ExchangeError::AddOverflow);
                    },
                };
                let c = &self.clients[ci];
                if c.get_balance() < cost0 {
                    return Ok(());
                }
            },
        }
        let mut inc = new_order;
        let ghost cs0 = self@.clients;
        let ghost book0 = self@.orders;
        let ghost inc0 = inc@;
        let ticker: String = inc.get_ticker().clone();
        let opp = side.opposite();
        proof {
            lemma_find_client(cs0, inc0.client);
        }
        loop
            invariant
                self.wf(),
                self@.clients.len() == cs0.len(),
                ci < self@.clients.len(),
                self@.clients[ci as int].name == inc0.client,
                forall|j: int| 0 <= j < ci ==> self@.clients[j].name != inc0.client,
                inc@.client == inc0.client,
                inc@.ticker == inc0.ticker,
                inc@.operation == inc0.operation,
                inc@.price == inc0.price,
                ticker@ == inc0.ticker,
                side == inc0.operation,
                opp == side.spec_opposite(),
                match_rec(cs0, book0, inc0) == match_rec(self@.clients, self@.orders, inc@),
            ensures
                self.wf(),
                ci < self@.clients.len(),
                self@.clients[ci as int].name == inc0.client,
                forall|j: int| 0 <= j < ci ==> self@.clients[j].name != inc0.client,
                inc@.client == inc0.client,
                inc@.ticker == inc0.ticker,
                inc@.operation == inc0.operation,
                inc@.price == inc0.price,
                match_rec(cs0, book0, inc0) == (self@.clients, self@.orders, inc@),
            decreases self@.orders.len() + total_amount(self@.orders),
        {
            let ghost cv = self@.clients;
            let ghost ov = self@.orders;
            let ghost iv = inc@;
            if inc.get_amount() == 0 {
                break;
            }
            let p: u32 = match best_opposite_price(&self.orders, ticker.as_str(), opp) {
                Some(p) => p,
                None => {
                    break;
                },
            };
            let ok_price = match side {
                Operation::Sell => p >= inc.get_price(),
                Operation::Buy => p <= inc.get_price(),
            };
            proof {
                assert(ok_price == acceptable(iv.operation, iv.price, p));
            }
            if !ok_price {
                break;
            }
            let i: usize = match first_at_level(&self.orders, ticker.as_str(), opp, p) {
                Some(i) => i,
                None => {
                    proof {
                        lemma_best_price_has_first(ov, iv.ticker, opp, p);
                    }
                    break;
                },
            };
            proof {
                lemma_first_at(ov, iv.ticker, opp, p);
            }
            let ro = &self.orders[i];
            let rprice: u32 = ro.get_price();
            let ramt: u32 = ro.get_amount();
            let rclient: String = ro.get_client().clone();
            let ghost rv = ov[i as int];
            let ri: usize = match self.find_client_index(rclient.as_str()) {
                Some(x) => x,
                None => {
                    proof {
                        assert(registered(cv, ov[i as int].client));
                        assert(false);
                    }
                    break;
                },
            };
            let mut insolvent = false;
            match ramt.checked_mul(rprice) {
                None => {
                    insolvent = true;
                },
                Some(rc) => {
                    let c = &self.clients[ri];
                    if c.get_balance() < rc {
                        insolvent = true;
                    }
                },
            }
            if insolvent {
                // The resting order's owner can no longer cover it: an
                // involuntary cancellation, never fatal to the incoming order.
                proof {
                    assert(match_rec(cv, ov, iv) == match_rec(cv, ov.remove(i as int), iv));
                    lemma_total_amount_remove(ov, i as int);
                }
                self.orders.remove(i);
                proof {
                    assert(self@.orders =~= ov.remove(i as int));
                    assert forall|j: int| 0 <= j < self@.orders.len() implies self@.orders[j].amount
                        > 0 && registered(self@.clients, self@.orders[j].client) by {
                        if j < i {
                            assert(self@.orders[j] == ov[j]);
                        } else {
                            assert(self@.orders[j] == ov[j + 1]);
                        }
                    }
                }
            } else {
                let a: u32 = if inc.get_amount() < ramt {
                    inc.get_amount()
                } else {
                    ramt
                };
                let buyer: usize;
                let seller: usize;
                match side {
                    Operation::Buy => {
                        buyer = ci;
                        seller = ri;
                    },
                    Operation::Sell => {
                        buyer = ri;
                        seller = ci;
                    },
                }
                proof {
                    lemma_find_client_is(cv, inc0.client, ci as int);
                }
                let st = settle_trade(&mut self.clients, buyer, seller, ticker.as_str(), a, rprice);
                match st {
                    Err(_) => {
                        // The settlement refused; drop the resting order and
                        // move on, leaving both accounts untouched.
                        proof {
                            assert(match_rec(cv, ov, iv) == match_rec(
                                cv,
                                ov.remove(i as int),
                                iv,
                            ));
                            lemma_total_amount_remove(ov, i as int);
                        }
                        self.orders.remove(i);
                        proof {
                            assert(self@.clients =~= cv);
                            assert(self@.orders =~= ov.remove(i as int));
                            assert forall|j: int|
                                0 <= j < self@.orders.len() implies self@.orders[j].amount > 0
                                && registered(self@.clients, self@.orders[j].client) by {
                                if j < i {
                                    assert(self@.orders[j] == ov[j]);
                                } else {
                                    assert(self@.orders[j] == ov[j + 1]);
                                }
                            }
                        }
                    },
                    Ok(()) => {
                        let ghost cs2 = settle_spec(
                            cv,
                            buyer as int,
                            seller as int,
                            iv.ticker,
                            a,
                            rprice,
                        )->Ok_0;
                        proof {
                            assert(self@.clients == cs2);
                            lemma_settle_conserves(
                                cv,
                                buyer as int,
                                seller as int,
                                iv.ticker,
                                a,
                                rprice,
                                cs2,
                            );
                        }
                        if a == ramt {
                            proof {
                                assert(match_rec(cv, ov, iv) == match_rec(
                                    cs2,
                                    ov.remove(i as int),
                                    OrderV { amount: (iv.amount - a) as u32, ..iv },
                                ));
                                lemma_total_amount_remove(ov, i as int);
                            }
                            self.orders.remove(i);
                            proof {
                                assert(self@.orders =~= ov.remove(i as int));
                            }
                        } else {
                            let ghost rv2 = OrderV { amount: (rv.amount - a) as u32, ..rv };
                            proof {
                                assert(match_rec(cv, ov, iv) == match_rec(
                                    cs2,
                                    ov.update(i as int, rv2),
                                    OrderV { amount: (iv.amount - a) as u32, ..iv },
                                ));
                                lemma_total_amount_update(ov, i as int, rv2);
                            }
                            let e = &mut self.orders[i];
                            e.sub_amount(a);
                            proof {
                                assert(self@.orders =~= ov.update(i as int, rv2));
                            }
                        }
                        inc.sub_amount(a);
                        proof {
                            assert forall|j: int|
                                0 <= j < self@.orders.len() implies self@.orders[j].amount > 0
                                && registered(self@.clients, self@.orders[j].client) by {
                                let c = self@.orders[j].client;
                                if a == ramt {
                                    if j < i {
                                        assert(self@.orders[j] == ov[j]);
                                    } else {
                                        assert(self@.orders[j] == ov[j + 1]);
                                    }
                                } else {
                                    if j != i {
                                        assert(self@.orders[j] == ov[j]);
                                    }
                                }
                                assert(registered(cv, c));
                                crate::registry::lemma_find_client_same_names(cv, cs2, c);
                            }
                            assert(unique_names(cs2)) by {
                                assert(forall|x: int, y: int|
                                    0 <= x < y < cs2.len() ==> cs2[x].name == cv[x].name
                                        && cs2[y].name == cv[y].name);
                            }
                        }
                    },
                }
            }
        }
        proof {
            assert(inc0 == ov0);
        }
        if inc.get_amount() > 0 {
            let ghost cve = self@.clients;
            let ghost ove = self@.orders;
            let ghost ive = inc@;
            proof {
                lemma_find_client_is(cve, inc0.client, ci as int);
            }
            self.orders.push(inc);
            proof {
                assert(self@.clients =~= cve);
                assert(self@.orders =~= ove.push(ive));
                assert forall|j: int| 0 <= j < self@.orders.len() implies self@.orders[j].amount > 0
                    && registered(self@.clients, self@.orders[j].client) by {
                    if j < ove.len() {
                        assert(self@.orders[j] == ove[j]);
                    } else {
                        assert(self@.orders[j] == ive);
                    }
                }
            }
        }
        proof {
            lemma_match_rec_conserves(cs0, book0, inc0);
            assert((self@, Ok::<(), ExchangeError>(())) == operate_spec(s0, ov0));
        }
        Ok(())
    }

    /// The registry's accounts, in registration order; read-only, and only
    /// ever reflecting fully settled state.
    pub fn snapshot_accounts(&self) -> (r: &Vec<Client>)
        ensures
            client_views(r@) == self@.clients,
    {
        &self.clients
    }

    /// The resting orders of the book, in arrival order.
    pub fn open_orders(&self) -> (r: &Vec<Order>)
        ensures
            order_views(r@) == self@.orders,
    {
        &self.orders
    }

    /// The registered client named `name`, if there is one.
    pub fn lookup(&self, name: &str) -> (r: Option<&Client>)
        ensures
            match r {
                Some(c) => registered(self@.clients, name@) && c@ == self@.clients[find_client(
                    self@.clients,
                    name@,
                )],
                None => !registered(self@.clients, name@),
            },
    {
        match self.find_client_index(name) {
            Some(i) => Some(&self.clients[i]),
            None => None,
        }
    }
}

} // verus!
