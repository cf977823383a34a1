use desci_ledger::errors::Error;
use desci_ledger::payment::{ExternalLedger, PaymentContract};

#[test]
fn test_pay_contributors() {
    let mut usdc_token = ExternalLedger::new();

    let treasury: u64 = 100;
    let contributor1: u64 = 1;
    let contributor2: u64 = 2;

    usdc_token.credit(treasury, 20_000_000);

    let contributors = vec![contributor1, contributor2];
    let amounts: Vec<i128> = vec![5_000_000, 5_000_000]; // 5 USDC each at 7 decimals
    let report_id = "REPORT_001".to_string();

    let receipt = PaymentContract::pay_contributors(
        &mut usdc_token,
        &contributors,
        &amounts,
        treasury,
        report_id,
    )
    .unwrap();

    assert_eq!(receipt.report_id, "REPORT_001".to_string());
    assert_eq!(receipt.payments.len(), 2);
    assert_eq!(receipt.payments[0].contributor, contributor1);
    assert_eq!(receipt.payments[0].amount, 5_000_000);
    assert_eq!(receipt.payments[1].contributor, contributor2);
    assert_eq!(receipt.payments[1].amount, 5_000_000);
    assert_eq!(usdc_token.balance(treasury), 10_000_000);
    assert_eq!(usdc_token.balance(contributor1), 5_000_000);
    assert_eq!(usdc_token.balance(contributor2), 5_000_000);
}

#[test]
fn mismatched_lengths_fail_with_no_event() {
    let mut usdc_token = ExternalLedger::new();
    usdc_token.credit(100, 1_000);

    let contributors = vec![1u64, 2u64];
    let amounts: Vec<i128> = vec![10];

    let r = PaymentContract::pay_contributors(
        &mut usdc_token,
        &contributors,
        &amounts,
        100,
        "REPORT_001".to_string(),
    );
    assert!(matches!(r, Err(Error::LengthMismatch)));
    assert_eq!(usdc_token.balance(100), 1_000);
    assert_eq!(usdc_token.balance(1), 0);
    assert_eq!(usdc_token.balance(2), 0);
}

#[test]
fn non_positive_amounts_are_skipped_without_event() {
    let mut usdc_token = ExternalLedger::new();
    let treasury: u64 = 100;
    usdc_token.credit(treasury, 9_000_000);

    let contributors = vec![1u64, 2u64];
    let amounts: Vec<i128> = vec![5_000_000, 0];

    let receipt = PaymentContract::pay_contributors(
        &mut usdc_token,
        &contributors,
        &amounts,
        treasury,
        "REPORT_001".to_string(),
    )
    .unwrap();

    // exactly one event, for the first contributor only
    assert_eq!(receipt.payments.len(), 1);
    assert_eq!(receipt.payments[0].contributor, 1);
    assert_eq!(receipt.payments[0].amount, 5_000_000);
    // exactly one transfer was performed
    assert_eq!(usdc_token.balance(treasury), 4_000_000);
    assert_eq!(usdc_token.balance(1), 5_000_000);
    assert_eq!(usdc_token.balance(2), 0);
}

#[test]
fn all_skipped_batch_touches_nothing() {
    let mut usdc_token = ExternalLedger::new();
    usdc_token.credit(100, 50);

    let contributors = vec![1u64, 2u64, 3u64];
    let amounts: Vec<i128> = vec![0, -7, 0];

    let receipt = PaymentContract::pay_contributors(
        &mut usdc_token,
        &contributors,
        &amounts,
        100,
        "REPORT_001".to_string(),
    )
    .unwrap();
    assert_eq!(receipt.payments.len(), 0);
    assert_eq!(usdc_token.balance(100), 50);
}

#[test]
fn failing_transfer_rolls_back_the_whole_batch() {
    let mut usdc_token = ExternalLedger::new();
    let treasury: u64 = 100;
    usdc_token.credit(treasury, 7);

    // the first transfer fits, the second exceeds what is left
    let contributors = vec![1u64, 2u64];
    let amounts: Vec<i128> = vec![5, 4];

    let r = PaymentContract::pay_contributors(
        &mut usdc_token,
        &contributors,
        &amounts,
        treasury,
        "REPORT_001".to_string(),
    );
    assert!(matches!(r, Err(Error::ExternalTransferFailed)));
    // the first payment was undone: all-or-nothing semantics
    assert_eq!(usdc_token.balance(treasury), 7);
    assert_eq!(usdc_token.balance(1), 0);
    assert_eq!(usdc_token.balance(2), 0);
}

#[test]
fn get_balance_passes_the_query_through() {
    let mut usdc_token = ExternalLedger::new();
    usdc_token.credit(42, 1_234);
    assert_eq!(PaymentContract::get_balance(&usdc_token, 42), 1_234);
    assert_eq!(PaymentContract::get_balance(&usdc_token, 43), 0);
}

#[test]
fn treasury_paying_itself_nets_to_zero() {
    let mut usdc_token = ExternalLedger::new();
    let treasury: u64 = 100;
    usdc_token.credit(treasury, 10);

    let contributors = vec![treasury];
    let amounts: Vec<i128> = vec![6];

    let receipt = PaymentContract::pay_contributors(
        &mut usdc_token,
        &contributors,
        &amounts,
        treasury,
        "REPORT_001".to_string(),
    )
    .unwrap();
    assert_eq!(receipt.payments.len(), 1);
    assert_eq!(usdc_token.balance(treasury), 10);
}
