use desci_ledger::errors::Error;
use desci_ledger::registry::StudyRegistry;
use desci_ledger::token::BioCreditToken;

#[test]
fn fresh_accounts_hold_zero() {
    let token = BioCreditToken::new();
    for a in [0u64, 1, 42, u64::MAX] {
        assert_eq!(token.balance(a), 0);
    }
}

#[test]
fn minted_amounts_accumulate() {
    let mut token = BioCreditToken::new();
    let a: u64 = 3;
    let amounts: [i128; 4] = [10, 5, 0, 7];
    let mut sum: i128 = 0;
    for amount in amounts {
        sum += amount;
        assert_eq!(token.mint(a, amount), sum);
    }
    assert_eq!(token.balance(a), 22);
    assert_eq!(token.balance(4), 0);
}

#[test]
fn insufficient_transfer_leaves_both_balances() {
    let mut token = BioCreditToken::new();
    token.mint(1, 8);
    token.mint(2, 3);
    let r = token.transfer(1, 2, 9);
    assert_eq!(r, Err(Error::InsufficientBalance));
    assert_eq!(token.balance(1), 8);
    assert_eq!(token.balance(2), 3);
}

#[test]
fn transfer_moves_exactly_the_amount() {
    let mut token = BioCreditToken::new();
    token.mint(1, 8);
    token.mint(2, 3);
    let r = token.transfer(1, 2, 5);
    assert_eq!(r, Ok(3));
    assert_eq!(token.balance(1), 3);
    assert_eq!(token.balance(2), 8);
}

#[test]
fn self_transfer_applies_both_writes() {
    let mut token = BioCreditToken::new();
    token.mint(1, 8);
    // debit then credit on the same key: the return value reflects the
    // debit, the stored balance reflects both writes
    let r = token.transfer(1, 1, 5);
    assert_eq!(r, Ok(3));
    assert_eq!(token.balance(1), 8);
}

#[test]
fn mint_transfer_scenario() {
    let mut token = BioCreditToken::new();
    let x: u64 = 1;
    let y: u64 = 2;
    token.mint(x, 10);
    assert_eq!(token.balance(x), 10);
    token.mint(x, 5);
    assert_eq!(token.balance(x), 15);
    let r = token.transfer(x, y, 5);
    assert_eq!(r, Ok(10));
    assert_eq!(token.balance(x), 10);
    assert_eq!(token.balance(y), 5);
}

#[test]
fn register_then_read_then_duplicate_scenario() {
    let mut registry = StudyRegistry::new();
    let h = [0u8; 32];
    let owner: u64 = 77;
    let att = [1u8; 32];

    registry
        .register_study(h, owner, 12345, "LAB_001".to_string(), att)
        .unwrap();

    let data = registry.get_study_data(h).unwrap();
    assert_eq!(data.study_hash, h);
    assert_eq!(data.owner, owner);
    assert_eq!(data.timestamp, 12345);
    assert_eq!(data.lab_identifier, "LAB_001".to_string());
    assert_eq!(data.attestation_hash, att);

    let again = registry.register_study(h, owner, 12345, "LAB_001".to_string(), att);
    assert!(matches!(again, Err(Error::DuplicateStudy)));
}

#[test]
fn owner_index_length_counts_successful_registrations() {
    let mut registry = StudyRegistry::new();
    let owner: u64 = 5;
    let mut expected: usize = 0;
    for i in 0..4u8 {
        let mut h = [0u8; 32];
        h[0] = i % 2; // two distinct hashes, each tried twice
        let r = registry.register_study(h, owner, i as u64, "LAB_001".to_string(), [0u8; 32]);
        if r.is_ok() {
            expected += 1;
        }
        assert_eq!(registry.get_study_hashes_by_owner(owner).len(), expected);
    }
    assert_eq!(expected, 2);
}
