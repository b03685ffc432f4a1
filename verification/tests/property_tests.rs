use exchange::clients::Client;
use exchange::engine::ExchangeOperation;
use exchange::errors::ExchangeError;
use exchange::orders::{Operation, Order};

/// The totals of cash and of each instrument's holdings over a whole
/// sequence of submissions, measured before and after.
fn totals(exchange: &ExchangeOperation, ticker: &str) -> (u64, u64) {
    let mut cash: u64 = 0;
    let mut stock: u64 = 0;
    for client in exchange.snapshot_accounts() {
        cash += client.get_balance() as u64;
        stock += client.get_amount_of_stock(ticker) as u64;
    }
    (cash, stock)
}

#[test]
fn test_conservation_over_submissions() {
    let mut exchange = ExchangeOperation::new();
    let mut a = Client::new("A", 700);
    let mut b = Client::new("B", 1300);
    let _ = a.update_stock_balance("C1", 40, Operation::Buy);
    let _ = b.update_stock_balance("C1", 5, Operation::Buy);
    assert!(exchange.add_client(a).is_ok());
    assert!(exchange.add_client(b).is_ok());
    let before = totals(&exchange, "C1");

    let _ = exchange.operate(Order::new("A", Operation::Sell, "C1", 7, 12));
    let _ = exchange.operate(Order::new("B", Operation::Buy, "C1", 9, 30));
    let _ = exchange.operate(Order::new("A", Operation::Sell, "C1", 8, 20));
    let _ = exchange.operate(Order::new("B", Operation::Sell, "C1", 6, 3));
    let _ = exchange.operate(Order::new("A", Operation::Buy, "C1", 11, 2));

    let after = totals(&exchange, "C1");
    assert_eq!(before, after);
}

#[test]
fn test_price_time_priority() {
    let mut exchange = ExchangeOperation::new();
    let mut s1 = Client::new("S1", 1000);
    let mut s2 = Client::new("S2", 1000);
    let b = Client::new("B", 1000);
    let _ = s1.update_stock_balance("C1", 30, Operation::Buy);
    let _ = s2.update_stock_balance("C1", 30, Operation::Buy);
    assert!(exchange.add_client(s1).is_ok());
    assert!(exchange.add_client(s2).is_ok());
    assert!(exchange.add_client(b).is_ok());

    // O1 rests before O2 at the same price; the small incoming Buy must
    // fill against O1 alone.
    assert!(exchange.operate(Order::new("S1", Operation::Sell, "C1", 10, 20)).is_ok());
    assert!(exchange.operate(Order::new("S2", Operation::Sell, "C1", 10, 20)).is_ok());
    assert!(exchange.operate(Order::new("B", Operation::Buy, "C1", 10, 5)).is_ok());

    let orders = exchange.open_orders();
    assert_eq!(orders.len(), 2);
    assert_eq!(orders[0].get_client().as_str(), "S1");
    assert_eq!(orders[0].get_amount(), 15);
    assert_eq!(orders[1].get_client().as_str(), "S2");
    assert_eq!(orders[1].get_amount(), 20);
    assert_eq!(exchange.lookup("S1").unwrap().get_balance(), 1050);
    assert_eq!(exchange.lookup("S2").unwrap().get_balance(), 1000);
}

#[test]
fn test_price_improvement() {
    let mut exchange = ExchangeOperation::new();
    let mut s = Client::new("S", 1000);
    let b = Client::new("B", 1000);
    let _ = s.update_stock_balance("C1", 10, Operation::Buy);
    assert!(exchange.add_client(s).is_ok());
    assert!(exchange.add_client(b).is_ok());

    // A resting Sell at limit 10 and an incoming Buy at limit 20 trade at
    // 10, not 20: the buyer pays 5 * 10, never 5 * 20.
    assert!(exchange.operate(Order::new("S", Operation::Sell, "C1", 10, 5)).is_ok());
    assert!(exchange.operate(Order::new("B", Operation::Buy, "C1", 20, 5)).is_ok());

    assert_eq!(exchange.lookup("B").unwrap().get_balance(), 1000 - 5 * 10);
    assert_eq!(exchange.lookup("B").unwrap().get_amount_of_stock("C1"), 5);
    assert_eq!(exchange.lookup("S").unwrap().get_balance(), 1000 + 5 * 10);
    assert_eq!(exchange.open_orders().len(), 0);
}

#[test]
fn test_infeasible_sell_is_noop() {
    let mut exchange = ExchangeOperation::new();
    let mut a = Client::new("A", 500);
    let _ = a.update_stock_balance("C1", 3, Operation::Buy);
    assert!(exchange.add_client(a).is_ok());

    // Selling more than the client holds: accepted, but no book entry and
    // no account change.
    assert!(exchange.operate(Order::new("A", Operation::Sell, "C1", 10, 4)).is_ok());
    assert_eq!(exchange.open_orders().len(), 0);
    assert_eq!(exchange.lookup("A").unwrap().get_balance(), 500);
    assert_eq!(exchange.lookup("A").unwrap().get_amount_of_stock("C1"), 3);
}

#[test]
fn test_infeasible_buy_is_noop() {
    let mut exchange = ExchangeOperation::new();
    let a = Client::new("A", 99);
    assert!(exchange.add_client(a).is_ok());

    // A Buy whose full cost exceeds the balance: accepted, but no book
    // entry and no account change.
    assert!(exchange.operate(Order::new("A", Operation::Buy, "C1", 10, 10)).is_ok());
    assert_eq!(exchange.open_orders().len(), 0);
    assert_eq!(exchange.lookup("A").unwrap().get_balance(), 99);
}

#[test]
fn test_duplicate_registration_keeps_first_state() {
    let mut exchange = ExchangeOperation::new();
    assert!(exchange.add_client(Client::new("A", 5)).is_ok());
    let second = exchange.add_client(Client::new("A", 900));
    assert!(matches!(second, Err(ExchangeError::UserAlreadyRegistered)));
    assert_eq!(exchange.snapshot_accounts().len(), 1);
    assert_eq!(exchange.lookup("A").unwrap().get_balance(), 5);
}

#[test]
fn test_end_to_end_example() {
    let mut exchange = ExchangeOperation::new();
    let mut a = Client::new("A", 1000);
    let mut b = Client::new("B", 1000);
    let _ = a.update_stock_balance("C1", 10, Operation::Buy);
    let _ = b.update_stock_balance("C1", 10, Operation::Buy);
    assert!(exchange.add_client(a).is_ok());
    assert!(exchange.add_client(b).is_ok());

    assert!(exchange.operate(Order::new("B", Operation::Buy, "C1", 10, 10)).is_ok());
    assert!(exchange.operate(Order::new("A", Operation::Sell, "C1", 10, 10)).is_ok());

    assert_eq!(exchange.lookup("A").unwrap().get_balance(), 1100);
    assert_eq!(exchange.lookup("A").unwrap().get_amount_of_stock("C1"), 0);
    assert_eq!(exchange.lookup("B").unwrap().get_balance(), 900);
    assert_eq!(exchange.lookup("B").unwrap().get_amount_of_stock("C1"), 20);
    assert_eq!(exchange.open_orders().len(), 0);
}

#[test]
fn test_unknown_client_rejected() {
    let mut exchange = ExchangeOperation::new();
    let r = exchange.operate(Order::new("ghostly", Operation::Buy, "C1", 10, 10));
    assert!(matches!(r, Err(ExchangeError::UnknownUser)));
    assert_eq!(exchange.open_orders().len(), 0);
}

#[test]
fn test_buy_cost_overflow_rejected() {
    let mut exchange = ExchangeOperation::new();
    assert!(exchange.add_client(Client::new("A", 1000)).is_ok());
    let r = exchange.operate(Order::new("A", Operation::Buy, "C1", 2_000_000_000, 3));
    assert!(matches!(r, Err(ExchangeError::AddOverflow)));
    assert_eq!(exchange.open_orders().len(), 0);
    assert_eq!(exchange.lookup("A").unwrap().get_balance(), 1000);
}

#[test]
fn test_self_trade_leaves_account_unchanged() {
    let mut exchange = ExchangeOperation::new();
    let mut a = Client::new("A", 1000);
    let _ = a.update_stock_balance("C1", 10, Operation::Buy);
    assert!(exchange.add_client(a).is_ok());

    // A's own Sell matches A's resting Buy: the two transfers cancel, the
    // book empties, and the account is exactly as it started.
    assert!(exchange.operate(Order::new("A", Operation::Buy, "C1", 10, 10)).is_ok());
    assert_eq!(exchange.open_orders().len(), 1);
    assert!(exchange.operate(Order::new("A", Operation::Sell, "C1", 10, 10)).is_ok());
    assert_eq!(exchange.open_orders().len(), 0);
    assert_eq!(exchange.lookup("A").unwrap().get_balance(), 1000);
    assert_eq!(exchange.lookup("A").unwrap().get_amount_of_stock("C1"), 10);
}

#[test]
fn test_involuntary_cancellation() {
    let mut exchange = ExchangeOperation::new();
    let mut a = Client::new("A", 1000);
    let b = Client::new("B", 100);
    let _ = a.update_stock_balance("C1", 10, Operation::Buy);
    let _ = a.update_stock_balance("C2", 10, Operation::Buy);
    assert!(exchange.add_client(a).is_ok());
    assert!(exchange.add_client(b).is_ok());

    // B rests a Buy it can afford, then spends its cash on another trade;
    // the stale resting Buy is dropped without executing when reached.
    assert!(exchange.operate(Order::new("B", Operation::Buy, "C1", 10, 10)).is_ok());
    assert!(exchange.operate(Order::new("B", Operation::Buy, "C2", 10, 5)).is_ok());
    assert!(exchange.operate(Order::new("A", Operation::Sell, "C2", 10, 5)).is_ok());
    assert_eq!(exchange.lookup("B").unwrap().get_balance(), 50);

    assert!(exchange.operate(Order::new("A", Operation::Sell, "C1", 10, 10)).is_ok());
    let orders = exchange.open_orders();
    assert_eq!(orders.len(), 1);
    assert_eq!(orders[0].get_client().as_str(), "A");
    assert_eq!(orders[0].get_operation(), Operation::Sell);
    assert_eq!(exchange.lookup("B").unwrap().get_balance(), 50);
    assert_eq!(exchange.lookup("B").unwrap().get_amount_of_stock("C1"), 0);
    assert_eq!(exchange.lookup("A").unwrap().get_amount_of_stock("C1"), 10);
}

#[test]
fn test_update_balance_buyer_short_of_money() {
    let mut client = Client::new("C", 30);
    let r = client.update_balance("A", 4, Operation::Buy, 10);
    assert!(matches!(r, Err(ExchangeError::BuyerDoesntHaveEnoughMoney)));
    assert_eq!(client.get_balance(), 30);
    assert_eq!(client.get_amount_of_stock("A"), 0);
}

#[test]
fn test_update_balance_cost_overflow() {
    let mut client = Client::new("C", 30);
    let r = client.update_balance("A", 3, Operation::Sell, 2_000_000_000);
    assert!(matches!(r, Err(ExchangeError::AddOverflow)));
    assert_eq!(client.get_balance(), 30);
}

#[test]
fn test_update_stock_balance_short_of_shares() {
    let mut client = Client::new("C", 0);
    let _ = client.update_stock_balance("A", 5, Operation::Buy);
    let r = client.update_stock_balance("A", 6, Operation::Sell);
    assert!(matches!(r, Err(ExchangeError::SubtractionOverflow)));
    assert_eq!(client.get_amount_of_stock("A"), 5);
}

#[test]
fn test_sub_amount() {
    let mut order = Order::new("C1", Operation::Buy, "A", 10, 20);
    order.sub_amount(15);
    assert_eq!(order.get_amount(), 5);
    order.sub_amount(5);
    assert_eq!(order.get_amount(), 0);
}

#[test]
fn test_operation_opposite() {
    assert_eq!(Operation::Buy.opposite(), Operation::Sell);
    assert_eq!(Operation::Sell.opposite(), Operation::Buy);
}

#[test]
fn test_operation_from_code() {
    assert!(matches!(Operation::from_code('b'), Ok(Operation::Buy)));
    assert!(matches!(Operation::from_code('s'), Ok(Operation::Sell)));
    assert!(matches!(
        Operation::from_code('x'),
        Err(ExchangeError::ProblemWithParsingOperation)
    ));
}

#[test]
fn test_remainder_rests_after_partial_fill() {
    let mut exchange = ExchangeOperation::new();
    let mut s = Client::new("S", 1000);
    let b = Client::new("B", 1000);
    let _ = s.update_stock_balance("C1", 5, Operation::Buy);
    assert!(exchange.add_client(s).is_ok());
    assert!(exchange.add_client(b).is_ok());

    assert!(exchange.operate(Order::new("S", Operation::Sell, "C1", 10, 5)).is_ok());
    assert!(exchange.operate(Order::new("B", Operation::Buy, "C1", 10, 8)).is_ok());

    // 5 shares traded; the 3 unmatched shares rest as a Buy.
    let orders = exchange.open_orders();
    assert_eq!(orders.len(), 1);
    assert_eq!(orders[0].get_client().as_str(), "B");
    assert_eq!(orders[0].get_operation(), Operation::Buy);
    assert_eq!(orders[0].get_amount(), 3);
    assert_eq!(exchange.lookup("B").unwrap().get_amount_of_stock("C1"), 5);
    assert_eq!(exchange.lookup("B").unwrap().get_balance(), 1000 - 50);
}
