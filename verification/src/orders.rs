//! Orders and their Buy/Sell side.

use vstd::prelude::*;

use crate::errors::ExchangeError;

verus! {

/// The side of an order: buying or selling shares.
#[derive(Debug, Clone, Copy, PartialEq, Eq, Structural)]
pub enum Operation {
    Buy,
    Sell,
}

impl Operation {
    /// The side a matching counter-order has.
    pub open spec fn spec_opposite(self) -> Operation {
        match self {
            Operation::Buy => Operation::Sell,
            Operation::Sell => Operation::Buy,
        }
    }

    /// The side a matching counter-order has.
    pub fn opposite(self) -> (r: Operation)
        ensures
            r == self.spec_opposite(),
    {
        match self {
            Operation::Buy => Operation::Sell,
            Operation::Sell => Operation::Buy,
        }
    }

    /// Decodes the one-letter side code of an order record: 'b' is a Buy,
    /// 's' is a Sell, anything else is rejected.
    pub fn from_code(code: char) -> (r: Result<Operation, ExchangeError>)
        ensures
            code == 'b' ==> r == Ok::<Operation, ExchangeError>(Operation::Buy),
            code == 's' ==> r == Ok::<Operation, ExchangeError>(Operation::Sell),
            code != 'b' && code != 's' ==> r == Err::<Operation, ExchangeError>(
                ExchangeError::ProblemWithParsingOperation,
            ),
    {
        if code == 'b' {
            Ok(Operation::Buy)
        } else if code == 's' {
            Ok(Operation::Sell)
        } else {
            Err(ExchangeError::ProblemWithParsingOperation)
        }
    }
}

/// The mathematical image of an order: who placed it, which way it trades,
/// what instrument, at what limit price, and how many shares remain.
pub struct OrderV {
    pub client: Seq<char>,
    pub operation: Operation,
    pub ticker: Seq<char>,
    pub price: u32,
    pub amount: u32,
}

/// An order: both a just-submitted order and an order resting in the book.
#[derive(Debug)]
pub struct Order {
    client: String,
    operation: Operation,
    ticker: String,
    price: u32,
    amount: u32,
}

impl View for Order {
    type V = OrderV;

    closed spec fn view(&self) -> OrderV {
        OrderV {
            client: self.client@,
            operation: self.operation,
            ticker: self.ticker@,
            price: self.price,
            amount: self.amount,
        }
    }
}

impl Order {
    pub fn new(client: &str, operation: Operation, ticker: &str, price: u32, amount: u32) -> (r:
        Order)
        ensures
            r@ == (OrderV { client: client@, operation, ticker: ticker@, price, amount }),
    {
        Order { client: client.to_owned(), operation, ticker: ticker.to_owned(), price, amount }
    }

    pub fn get_client(&self) -> (r: &String)
        ensures
            r@ == self@.client,
    {
        &self.client
    }

    pub fn get_ticker(&self) -> (r: &String)
        ensures
            r@ == self@.ticker,
    {
        &self.ticker
    }

    pub fn get_price(&self) -> (r: u32)
        ensures
            r == self@.price,
    {
        self.price
    }

    pub fn get_amount(&self) -> (r: u32)
        ensures
            r == self@.amount,
    {
        self.amount
    }

    pub fn get_operation(&self) -> (r: Operation)
        ensures
            r == self@.operation,
    {
        self.operation
    }

    /// Removes `new_amount` shares from the order; callers take the minimum
    /// of the two matched orders' amounts, so the subtraction cannot drop
    /// below zero.
    pub fn sub_amount(&mut self, new_amount: u32)
        requires
            new_amount <= old(self)@.amount,
        ensures
            final(self)@ == (OrderV { amount: (old(self)@.amount - new_amount) as u32, ..old(self)@ }),
    {
        self.amount = self.amount - new_amount;
    }

    /// Whether `rhs` is an exact counter-order: same instrument, same price,
    /// same amount, opposite side.
    pub fn compare_for_tx(&self, rhs: &Order) -> (r: bool)
        ensures
            r == (self@.amount == rhs@.amount && self@.price == rhs@.price && self@.operation
                != rhs@.operation && self@.ticker == rhs@.ticker),
    {
        self.amount == rhs.amount && self.price == rhs.price && !(self.operation == rhs.operation)
            && self.ticker == rhs.ticker
    }
}

} // verus!
