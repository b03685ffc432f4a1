//! Client accounts: a cash balance plus per-instrument share holdings.
//!
//! Holdings are kept as an association list from instrument ticker to a
//! non-negative share count; a ticker without an entry is implicitly held
//! at zero. The spec functions below read and update the first entry for a
//! ticker, which is the only one the executable code ever creates.

use vstd::prelude::*;

use crate::errors::ExchangeError;
use crate::orders::Operation;

verus! {

/// The mathematical image of one holdings entry.
pub struct HoldingV {
    pub ticker: Seq<char>,
    pub amount: u32,
}

/// One entry of a client's holdings: how many shares of one instrument.
#[derive(Debug)]
pub struct Holding {
    ticker: String,
    amount: u32,
}

impl View for Holding {
    type V = HoldingV;

    closed spec fn view(&self) -> HoldingV {
        HoldingV { ticker: self.ticker@, amount: self.amount }
    }
}

impl Holding {
    pub fn get_ticker(&self) -> (r: &String)
        ensures
            r@ == self@.ticker,
    {
        &self.ticker
    }

    pub fn get_amount(&self) -> (r: u32)
        ensures
            r == self@.amount,
    {
        self.amount
    }

    fn set_amount(&mut self, v: u32)
        ensures
            final(self)@ == (HoldingV { ticker: old(self)@.ticker, amount: v }),
    {
        self.amount = v;
    }
}

/// The index of the first entry for `t`, or -1 if there is none.
pub open spec fn stock_idx(h: Seq<HoldingV>, t: Seq<char>) -> int
    decreases h.len(),
{
    if h.len() == 0 {
        -1
    } else if h[0].ticker == t {
        0
    } else {
        let r = stock_idx(h.drop_first(), t);
        if r < 0 {
            -1
        } else {
            r + 1
        }
    }
}

/// Whether the holdings have an entry for `t`.
pub open spec fn holds(h: Seq<HoldingV>, t: Seq<char>) -> bool {
    stock_idx(h, t) >= 0
}

/// How many shares of `t` the holdings record; absent entries count as zero.
pub open spec fn amount_of(h: Seq<HoldingV>, t: Seq<char>) -> u32 {
    if holds(h, t) {
        h[stock_idx(h, t)].amount
    } else {
        0
    }
}

/// The holdings with the entry for `t` set to `v`, creating it if absent.
pub open spec fn set_amount_of(h: Seq<HoldingV>, t: Seq<char>, v: u32) -> Seq<HoldingV> {
    if holds(h, t) {
        h.update(stock_idx(h, t), HoldingV { ticker: t, amount: v })
    } else {
        h.push(HoldingV { ticker: t, amount: v })
    }
}

/// `stock_idx` finds the first entry for `t`: a -1 means no entry, and a
/// non-negative index points at an entry for `t` with none before it.
pub proof fn lemma_stock_idx(h: Seq<HoldingV>, t: Seq<char>)
    ensures
        stock_idx(h, t) == -1 || 0 <= stock_idx(h, t) < h.len(),
        stock_idx(h, t) == -1 ==> forall|j: int| 0 <= j < h.len() ==> h[j].ticker != t,
        stock_idx(h, t) >= 0 ==> h[stock_idx(h, t)].ticker == t && forall|j: int|
            0 <= j < stock_idx(h, t) ==> h[j].ticker != t,
    decreases h.len(),
{
    if h.len() != 0 && h[0].ticker != t {
        lemma_stock_idx(h.drop_first(), t);
        let r = stock_idx(h.drop_first(), t);
        if r == -1 {
            assert forall|j: int| 0 <= j < h.len() implies h[j].ticker != t by {
                if j > 0 {
                    assert(h.drop_first()[j - 1] == h[j]);
                }
            }
        } else {
            assert(h.drop_first()[r] == h[r + 1]);
            assert forall|j: int| 0 <= j < r + 1 implies h[j].ticker != t by {
                if j > 0 {
                    assert(h.drop_first()[j - 1] == h[j]);
                }
            }
        }
    }
}

/// If an entry for `t` stands at `i` with none before it, then `i` is
/// exactly what `stock_idx` returns.
pub proof fn lemma_stock_idx_is(h: Seq<HoldingV>, t: Seq<char>, i: int)
    requires
        0 <= i < h.len(),
        h[i].ticker == t,
        forall|j: int| 0 <= j < i ==> h[j].ticker != t,
    ensures
        stock_idx(h, t) == i,
{
    lemma_stock_idx(h, t);
}

/// If no entry is for `t`, `stock_idx` returns -1.
pub proof fn lemma_stock_idx_none(h: Seq<HoldingV>, t: Seq<char>)
    requires
        forall|j: int| 0 <= j < h.len() ==> h[j].ticker != t,
    ensures
        stock_idx(h, t) == -1,
{
    lemma_stock_idx(h, t);
}

/// Setting the amount for `t` changes exactly that ticker's amount and
/// leaves every other ticker's amount alone.
pub proof fn lemma_set_amount_of(h: Seq<HoldingV>, t: Seq<char>, v: u32)
    ensures
        amount_of(set_amount_of(h, t, v), t) == v,
        forall|t2: Seq<char>| t2 != t ==> amount_of(set_amount_of(h, t, v), t2) == amount_of(
            h,
            t2,
        ),
{
    lemma_stock_idx(h, t);
    let h2 = set_amount_of(h, t, v);
    let i = stock_idx(h, t);
    if i >= 0 {
        lemma_stock_idx_is(h2, t, i);
    } else {
        lemma_stock_idx_is(h2, t, h.len() as int);
    }
    assert(amount_of(h2, t) == v);
    assert forall|t2: Seq<char>| t2 != t implies amount_of(h2, t2) == amount_of(h, t2) by {
        lemma_stock_idx(h, t2);
        let i2 = stock_idx(h, t2);
        if i2 >= 0 {
            lemma_stock_idx_is(h2, t2, i2);
        } else {
            lemma_stock_idx_none(h2, t2);
        }
    }
}

/// The mathematical image of a client account.
pub struct ClientV {
    pub name: Seq<char>,
    pub balance: u32,
    pub holdings: Seq<HoldingV>,
}

/// One client's account: name, cash balance, and share holdings.
#[derive(Debug)]
pub struct Client {
    name: String,
    balance: u32,
    amount_of_stocks: Vec<Holding>,
}

impl View for Client {
    type V = ClientV;

    closed spec fn view(&self) -> ClientV {
        ClientV {
            name: self.name@,
            balance: self.balance,
            holdings: self.amount_of_stocks@.map_values(|h: Holding| h@),
        }
    }
}

/// What one holdings update does: a Buy adds shares to the entry for the
/// ticker (creating it at zero), a Sell removes them. The update fails,
/// changing nothing, if a Buy would overflow the share count or a Sell
/// would drop it below zero.
pub open spec fn stock_update_spec(
    h: Seq<HoldingV>,
    t: Seq<char>,
    amount: u32,
    operation: Operation,
) -> Result<Seq<HoldingV>, ExchangeError> {
    if operation == Operation::Buy {
        if amount_of(h, t) + amount > u32::MAX {
            Err(ExchangeError::AddOverflow)
        } else {
            Ok(set_amount_of(h, t, (amount_of(h, t) + amount) as u32))
        }
    } else {
        if amount_of(h, t) < amount {
            Err(ExchangeError::SubtractionOverflow)
        } else if holds(h, t) {
            Ok(set_amount_of(h, t, (amount_of(h, t) - amount) as u32))
        } else {
            Ok(h)
        }
    }
}

/// What one side of a settlement does to an account: a Buy pays
/// `amount * price` out of the balance and adds the shares, a Sell removes
/// the shares and collects the money. The update fails, changing nothing,
/// if the cost overflows, a buyer cannot pay, or the holdings update fails.
pub open spec fn balance_update_spec(
    c: ClientV,
    t: Seq<char>,
    amount: u32,
    operation: Operation,
    price: u32,
) -> Result<ClientV, ExchangeError> {
    let cost = amount as int * price as int;
    if cost > u32::MAX {
        Err(ExchangeError::AddOverflow)
    } else if operation == Operation::Buy && c.balance < cost {
        Err(ExchangeError::BuyerDoesntHaveEnoughMoney)
    } else {
        match stock_update_spec(c.holdings, t, amount, operation) {
            Err(e) => Err(e),
            Ok(h2) => if operation == Operation::Buy {
                Ok(ClientV { name: c.name, balance: (c.balance - cost) as u32, holdings: h2 })
            } else if c.balance + cost > u32::MAX {
                Err(ExchangeError::AddOverflow)
            } else {
                Ok(ClientV { name: c.name, balance: (c.balance + cost) as u32, holdings: h2 })
            },
        }
    }
}

impl Client {
    pub fn new(name: &str, balance: u32) -> (r: Client)
        ensures
            r@ == (ClientV { name: name@, balance, holdings: Seq::<HoldingV>::empty() }),
    {
        let c = Client { name: name.to_owned(), balance, amount_of_stocks: Vec::new() };
        proof {
            assert(c.amount_of_stocks@.map_values(|h: Holding| h@) =~= Seq::<HoldingV>::empty());
        }
        c
    }

    pub fn get_name(&self) -> (r: &String)
        ensures
            r@ == self@.name,
    {
        &self.name
    }

    pub fn get_balance(&self) -> (r: u32)
        ensures
            r == self@.balance,
    {
        self.balance
    }

    /// The index of this client's entry for `ticker`, if there is one.
    fn find_stock(&self, ticker: &str) -> (r: Option<usize>)
        ensures
            match r {
                Some(i) => stock_idx(self@.holdings, ticker@) == i && i
                    < self.amount_of_stocks@.len(),
                None => stock_idx(self@.holdings, ticker@) == -1,
            },
    {
        let key: String = ticker.to_owned();
        let n = self.amount_of_stocks.len();
        let mut i: usize = 0;
        while i < n
            invariant
                n == self.amount_of_stocks@.len(),
                i <= n,
                key@ == ticker@,
                forall|j: int| 0 <= j < i ==> self@.holdings[j].ticker != ticker@,
            decreases n - i,
        {
            let h = &self.amount_of_stocks[i];
            if h.ticker == key {
                proof {
                    lemma_stock_idx_is(self@.holdings, ticker@, i as int);
                }
                return Some(i);
            }
            i = i + 1;
        }
        proof {
            lemma_stock_idx_none(self@.holdings, ticker@);
        }
        None
    }

    /// How many shares of `ticker` this client holds; zero if none.
    pub fn get_amount_of_stock(&self, ticker: &str) -> (r: u32)
        ensures
            r == amount_of(self@.holdings, ticker@),
    {
        match self.find_stock(ticker) {
            Some(i) => {
                let h = &self.amount_of_stocks[i];
                h.amount
            },
            None => 0,
        }
    }

    /// All holdings entries, in the order they were first created.
    pub fn get_stocks(&self) -> (r: &Vec<Holding>)
        ensures
            r@.map_values(|h: Holding| h@) == self@.holdings,
    {
        &self.amount_of_stocks
    }

    /// Adds (Buy) or removes (Sell) shares of `ticker`, leaving the balance
    /// alone. Fails without any change if the count would overflow or drop
    /// below zero.
    pub fn update_stock_balance(&mut self, ticker: &str, amount: u32, operation: Operation) -> (r:
        Result<(), ExchangeError>)
        ensures
            final(self)@.name == old(self)@.name,
            final(self)@.balance == old(self)@.balance,
            match r {
                Ok(()) => stock_update_spec(old(self)@.holdings, ticker@, amount, operation)
                    == Ok::<Seq<HoldingV>, ExchangeError>(final(self)@.holdings),
                Err(e) => final(self)@ == old(self)@ && stock_update_spec(
                    old(self)@.holdings,
                    ticker@,
                    amount,
                    operation,
                ) == Err::<Seq<HoldingV>, ExchangeError>(e),
            },
    {
        let ghost h0 = self@.holdings;
        proof {
            lemma_stock_idx(h0, ticker@);
        }
        match operation {
            Operation::Buy => {
                let cur = self.get_amount_of_stock(ticker);
                let newv = match cur.checked_add(amount) {
                    Some(v) => v,
                    None => {
                        return Err(ExchangeError::AddOverflow);
                    },
                };
                match self.find_stock(ticker) {
                    Some(i) => {
                        let e = &mut self.amount_of_stocks[i];
                        e.set_amount(newv);
                        proof {
                            assert(self@.holdings =~= set_amount_of(h0, ticker@, newv));
                        }
                    },
                    None => {
                        self.amount_of_stocks.push(
                            Holding { ticker: ticker.to_owned(), amount: newv },
                        );
                        proof {
                            assert(self@.holdings =~= set_amount_of(h0, ticker@, newv));
                        }
                    },
                }
                Ok(())
            },
            Operation::Sell => {
                match self.find_stock(ticker) {
                    None => {
                        if amount == 0 {
                            Ok(())
                        } else {
                            Err(ExchangeError::SubtractionOverflow)
                        }
                    },
                    Some(i) => {
                        let h = &self.amount_of_stocks[i];
                        let cur = h.amount;
                        if cur < amount {
                            return Err(ExchangeError::SubtractionOverflow);
                        }
                        let e = &mut self.amount_of_stocks[i];
                        e.set_amount(cur - amount);
                        proof {
                            assert(self@.holdings =~= set_amount_of(
                                h0,
                                ticker@,
                                (amount_of(h0, ticker@) - amount) as u32,
                            ));
                        }
                        Ok(())
                    },
                }
            },
        }
    }

    /// Applies one side of a trade: the holdings update of
    /// `update_stock_balance` together with the matching cash movement,
    /// `amount * price` paid by a buyer or collected by a seller. All
    /// checks run before any change, so a failure leaves the account
    /// exactly as it was.
    pub fn update_balance(
        &mut self,
        ticker: &str,
        amount: u32,
        operation: Operation,
        price: u32,
    ) -> (r: Result<(), ExchangeError>)
        ensures
            match r {
                Ok(()) => balance_update_spec(old(self)@, ticker@, amount, operation, price)
                    == Ok::<ClientV, ExchangeError>(final(self)@),
                Err(e) => final(self)@ == old(self)@ && balance_update_spec(
                    old(self)@,
                    ticker@,
                    amount,
                    operation,
                    price,
                ) == Err::<ClientV, ExchangeError>(e),
            },
    {
        let cost = match amount.checked_mul(price) {
            Some(c) => c,
            None => {
                return Err(ExchangeError::AddOverflow);
            },
        };
        if operation == Operation::Buy && self.balance < cost {
            return Err(ExchangeError::BuyerDoesntHaveEnoughMoney);
        }
        // Check everything that could still fail before mutating anything,
        // so that the two updates below cannot leave a half-applied state.
        match operation {
            Operation::Buy => {
                let cur = self.get_amount_of_stock(ticker);
                if cur.checked_add(amount).is_none() {
                    return Err(ExchangeError::AddOverflow);
                }
            },
            Operation::Sell => {
                let cur = self.get_amount_of_stock(ticker);
                if cur < amount {
                    return Err(ExchangeError::SubtractionOverflow);
                }
                if self.balance.checked_add(cost).is_none() {
                    return Err(ExchangeError::AddOverflow);
                }
            },
        }
        let res = self.update_stock_balance(ticker, amount, operation);
        match res {
            Err(e) => {
                proof {
                    assert(false);
                }
                Err(e)
            },
            Ok(()) => {
                match operation {
                    Operation::Buy => {
                        self.balance = self.balance - cost;
                    },
                    Operation::Sell => {
                        self.balance = self.balance + cost;
                    },
                }
                Ok(())
            },
        }
    }
}

} // verus!
