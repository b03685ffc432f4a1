use exchange::clients::Client;
use exchange::engine::ExchangeOperation;
use exchange::errors::ExchangeError;
use exchange::orders::{Operation, Order};

#[test]
fn test_creation_and_getters() {
    let client = Client::new("C", 0);
    assert_eq!(client.get_name().as_str(), "C");
    assert_eq!(client.get_balance(), 0);
    assert_eq!(client.get_stocks().len(), 0);
}

#[test]
fn test_add_stock() {
    let mut client = Client::new("C", 0);
    let _ = client.update_stock_balance("A", 10, Operation::Buy);
    assert_eq!(client.get_stocks().len(), 1);
    assert_eq!(client.get_amount_of_stock("A"), 10);
    let _ = client.update_stock_balance("B", 20, Operation::Buy);
    assert_eq!(client.get_stocks().len(), 2);
    assert_eq!(client.get_amount_of_stock("A"), 10);
    assert_eq!(client.get_amount_of_stock("B"), 20);
    let _ = client.update_stock_balance("B", 30, Operation::Buy);
    assert_eq!(client.get_stocks().len(), 2);
    assert_eq!(client.get_amount_of_stock("A"), 10);
    assert_eq!(client.get_amount_of_stock("B"), 50);
}

#[test]
fn test_sub_stock() {
    let mut client = Client::new("C", 0);
    let _ = client.update_stock_balance("A", 100, Operation::Buy);
    assert_eq!(client.get_stocks().len(), 1);
    assert_eq!(client.get_amount_of_stock("A"), 100);
    let _ = client.update_stock_balance("A", 20, Operation::Sell);
    assert_eq!(client.get_amount_of_stock("A"), 80);
    let _ = client.update_stock_balance("A", 20, Operation::Sell);
    assert_eq!(client.get_amount_of_stock("A"), 60);

    let _ = client.update_stock_balance("B", 30, Operation::Buy);
    assert_eq!(client.get_stocks().len(), 2);
    assert_eq!(client.get_amount_of_stock("A"), 60);
    assert_eq!(client.get_amount_of_stock("B"), 30);
    let _ = client.update_stock_balance("B", 20, Operation::Sell);
    assert_eq!(client.get_stocks().len(), 2);
    assert_eq!(client.get_amount_of_stock("A"), 60);
    assert_eq!(client.get_amount_of_stock("B"), 10);
}

#[test]
fn test_update_balance() {
    let mut client = Client::new("C", 0);
    let _ = client.update_stock_balance("A", 100, Operation::Buy);
    assert_eq!(client.get_stocks().len(), 1);
    assert_eq!(client.get_amount_of_stock("A"), 100);
    let _ = client.update_balance("A", 40, Operation::Sell, 10);
    assert_eq!(client.get_stocks().len(), 1);
    assert_eq!(client.get_amount_of_stock("A"), 60);
    assert_eq!(client.get_balance(), 40 * 10);

    let _ = client.update_balance("A", 40, Operation::Sell, 10);
    assert_eq!(client.get_stocks().len(), 1);
    assert_eq!(client.get_amount_of_stock("A"), 20);
    assert_eq!(client.get_balance(), 40 * 20);

    let _ = client.update_balance("A", 40, Operation::Buy, 10);
    assert_eq!(client.get_stocks().len(), 1);
    assert_eq!(client.get_amount_of_stock("A"), 60);
    assert_eq!(client.get_balance(), 40 * 10);
}

#[test]
fn test_creation() {
    let order = Order::new("C1", Operation::Buy, "A", 10, 20);
    assert_eq!(order.get_client().as_str(), "C1");
    assert_eq!(order.get_ticker().as_str(), "A");
    assert_eq!(order.get_price(), 10);
    assert_eq!(order.get_amount(), 20);
}

#[test]
fn test_compare() {
    let order = Order::new("C1", Operation::Buy, "A", 10, 20);
    assert_eq!(order.get_client().as_str(), "C1");
    assert_eq!(order.get_ticker().as_str(), "A");
    assert_eq!(order.get_price(), 10);
    assert_eq!(order.get_amount(), 20);

    let new_order = Order::new("C2", Operation::Sell, "A", 10, 20);
    assert_eq!(new_order.get_client().as_str(), "C2");
    assert_eq!(new_order.get_ticker().as_str(), "A");
    assert_eq!(new_order.get_price(), 10);
    assert_eq!(new_order.get_amount(), 20);

    assert!(order.compare_for_tx(&new_order));

    let new_order = Order::new("C2", Operation::Sell, "B", 10, 20);
    assert_eq!(new_order.get_client().as_str(), "C2");
    assert_eq!(new_order.get_ticker().as_str(), "B");
    assert_eq!(new_order.get_price(), 10);
    assert_eq!(new_order.get_amount(), 20);

    assert!(!order.compare_for_tx(&new_order));

    let new_order = Order::new("C2", Operation::Sell, "A", 20, 20);
    assert_eq!(new_order.get_client().as_str(), "C2");
    assert_eq!(new_order.get_ticker().as_str(), "A");
    assert_eq!(new_order.get_price(), 20);
    assert_eq!(new_order.get_amount(), 20);

    assert!(!order.compare_for_tx(&new_order));

    let new_order = Order::new("C2", Operation::Sell, "A", 10, 10);
    assert_eq!(new_order.get_client().as_str(), "C2");
    assert_eq!(new_order.get_ticker().as_str(), "A");
    assert_eq!(new_order.get_price(), 10);
    assert_eq!(new_order.get_amount(), 10);

    assert!(!order.compare_for_tx(&new_order));
}

#[test]
fn test_addition_of_clients() {
    let mut exchange = ExchangeOperation::new();
    let client1 = Client::new("A", 5);
    let client2 = Client::new("B", 4);
    assert!(exchange.add_client(client1).is_ok());
    assert_eq!(exchange.snapshot_accounts().len(), 1);
    assert!(exchange.add_client(client2).is_ok());
    assert_eq!(exchange.snapshot_accounts().len(), 2);

    let client2_again = Client::new("B", 4);
    assert!(matches!(
        exchange.add_client(client2_again),
        Err(ExchangeError::UserAlreadyRegistered)
    ));
    assert_eq!(exchange.snapshot_accounts().len(), 2);
}

#[test]
fn test_exchange() {
    let mut exchange = ExchangeOperation::new();
    let mut client1 = Client::new("A", 1000);
    let mut client2 = Client::new("B", 1000);
    let _ = client2.update_stock_balance("C1", 10, Operation::Buy);
    let _ = client1.update_stock_balance("C1", 10, Operation::Buy);
    assert!(exchange.add_client(client1).is_ok());
    assert!(exchange.add_client(client2).is_ok());

    let order1 = Order::new("B", Operation::Buy, "C1", 10, 10);
    assert!(exchange.operate(order1).is_ok());
    assert_eq!(exchange.open_orders().len(), 1);
    assert_eq!(exchange.snapshot_accounts().len(), 2);

    let order2 = Order::new("A", Operation::Sell, "C1", 10, 10);
    assert!(exchange.operate(order2).is_ok());
    assert_eq!(exchange.open_orders().len(), 0);
    assert_eq!(exchange.snapshot_accounts().len(), 2);

    let client1_new = exchange.lookup("A").unwrap();
    assert_eq!(client1_new.get_balance(), 1100);
    assert_eq!(client1_new.get_amount_of_stock("C1"), 0);

    let client2_new = exchange.lookup("B").unwrap();
    assert_eq!(client2_new.get_balance(), 900);
    assert_eq!(client2_new.get_amount_of_stock("C1"), 20);
}

#[test]
fn test_no_exchange() {
    let mut exchange = ExchangeOperation::new();
    let mut client1 = Client::new("A", 1000);
    let mut client2 = Client::new("B", 1000);
    let _ = client2.update_stock_balance("C2", 10, Operation::Buy);
    let _ = client1.update_stock_balance("C1", 10, Operation::Buy);
    assert!(exchange.add_client(client1).is_ok());
    assert!(exchange.add_client(client2).is_ok());

    let order1 = Order::new("B", Operation::Buy, "C2", 10, 10);
    assert!(exchange.operate(order1).is_ok());
    assert_eq!(exchange.open_orders().len(), 1);
    assert_eq!(exchange.snapshot_accounts().len(), 2);

    let order2 = Order::new("A", Operation::Sell, "C1", 10, 10);
    assert!(exchange.operate(order2).is_ok());
    assert_eq!(exchange.open_orders().len(), 2);
    assert_eq!(exchange.snapshot_accounts().len(), 2);

    let order3 = Order::new("B", Operation::Sell, "C2", 11, 9);
    assert!(exchange.operate(order3).is_ok());
    assert_eq!(exchange.open_orders().len(), 3);
    assert_eq!(exchange.snapshot_accounts().len(), 2);

    let order4 = Order::new("A", Operation::Buy, "C1", 9, 11);
    assert!(exchange.operate(order4).is_ok());
    assert_eq!(exchange.open_orders().len(), 4);
    assert_eq!(exchange.snapshot_accounts().len(), 2);
}

#[test]
fn test_buy1() {
    let mut exchange = ExchangeOperation::new();
    let client1 = Client::new("A", 10000);
    let mut client2 = Client::new("B", 10000);
    let _ = client2.update_stock_balance("C1", 100, Operation::Buy);
    assert!(exchange.add_client(client1).is_ok());
    assert!(exchange.add_client(client2).is_ok());

    let order1 = Order::new("B", Operation::Sell, "C1", 10, 50);
    assert!(exchange.operate(order1).is_ok());
    assert_eq!(exchange.open_orders().len(), 1);
    assert_eq!(exchange.snapshot_accounts().len(), 2);

    let order2 = Order::new("B", Operation::Sell, "C1", 15, 50);
    assert!(exchange.operate(order2).is_ok());
    assert_eq!(exchange.open_orders().len(), 2);
    assert_eq!(exchange.snapshot_accounts().len(), 2);

    let order3 = Order::new("A", Operation::Buy, "C1", 20, 75);
    assert!(exchange.operate(order3).is_ok());

    let client_a = exchange.lookup("A").unwrap();
    assert_eq!(client_a.get_balance(), 10000 - (10 * 50 + 15 * 25));

    let client_b = exchange.lookup("B").unwrap();
    assert_eq!(client_b.get_balance(), 10000 + (10 * 50 + 15 * 25));

    assert_eq!(exchange.open_orders().len(), 1);
    assert_eq!(exchange.snapshot_accounts().len(), 2);
}
