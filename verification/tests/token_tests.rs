use desci_ledger::errors::Error;
use desci_ledger::token::BioCreditToken;

#[test]
fn test_mint() {
    let mut token = BioCreditToken::new();
    let to: u64 = 12345;
    let amount: i128 = 10;

    let balance = token.mint(to, amount);
    assert_eq!(balance, amount);
}

#[test]
fn test_balance() {
    let mut token = BioCreditToken::new();
    let address: u64 = 12345;

    let balance = token.balance(address);
    assert_eq!(balance, 0);

    token.mint(address, 5);
    let balance = token.balance(address);
    assert_eq!(balance, 5);
}

#[test]
fn test_transfer() {
    let mut token = BioCreditToken::new();
    let from: u64 = 1;
    let to: u64 = 2;

    token.mint(from, 10);

    let new_balance = token.transfer(from, to, 5);

    assert_eq!(new_balance, Ok(5));
    assert_eq!(token.balance(to), 5);
}

#[test]
fn mint_zero_and_negative_amounts() {
    let mut token = BioCreditToken::new();
    let a: u64 = 7;
    assert_eq!(token.mint(a, 0), 0);
    assert_eq!(token.mint(a, 10), 10);
    assert_eq!(token.mint(a, -3), 7);
    assert_eq!(token.balance(a), 7);
}

#[test]
fn transfer_zero_amount_succeeds() {
    let mut token = BioCreditToken::new();
    token.mint(1, 4);
    assert_eq!(token.transfer(1, 2, 0), Ok(4));
    assert_eq!(token.balance(1), 4);
    assert_eq!(token.balance(2), 0);
}

#[test]
fn transfer_insufficient_is_error() {
    let mut token = BioCreditToken::new();
    token.mint(1, 3);
    assert_eq!(token.transfer(1, 2, 4), Err(Error::InsufficientBalance));
}
