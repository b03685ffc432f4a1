//! Failure conditions surfaced by the exchange.

use vstd::prelude::*;

verus! {

/// Everything that can go wrong while registering a client, validating an
/// order, or settling a trade. Feasibility failures detected during matching
/// are handled internally and never surfaced through `operate`.
#[derive(Debug, Clone, Copy, PartialEq, Eq, Structural)]
pub enum ExchangeError {
    /// A client with that name is already registered.
    UserAlreadyRegistered,
    /// A lookup found no entry for the given key.
    NoValueInHashMap,
    /// The buyer's cash balance does not cover the cost of a transaction.
    BuyerDoesntHaveEnoughMoney,
    /// The seller does not hold enough shares of the instrument.
    NotEnoughStocks,
    /// An input number could not be parsed.
    ProblemWithNumber,
    /// An addition or multiplication would overflow.
    AddOverflow,
    /// An order record's side code is neither "b" nor "s".
    ProblemWithParsingOperation,
    /// An order names a client that is not registered.
    UnknownUser,
    /// A subtraction would drop below zero.
    SubtractionOverflow,
}

} // verus!
