use desci_ledger::errors::Error;
use desci_ledger::registry::StudyRegistry;

#[test]
fn test_register_study() {
    let mut registry = StudyRegistry::new();

    let owner: u64 = 1;
    let study_hash = [0u8; 32];
    let attestation_hash = [1u8; 32];
    let lab_identifier = "LAB_001".to_string();
    let timestamp: u64 = 12345;

    registry
        .register_study(
            study_hash,
            owner,
            timestamp,
            lab_identifier.clone(),
            attestation_hash,
        )
        .unwrap();

    let study_data = registry.get_study_data(study_hash).unwrap();
    assert_eq!(study_data.owner, owner);
    assert_eq!(study_data.timestamp, timestamp);
    assert_eq!(study_data.lab_identifier, lab_identifier);
}

#[test]
fn test_get_studies_by_owner() {
    let mut registry = StudyRegistry::new();

    let owner: u64 = 1;
    let lab_identifier = "LAB_001".to_string();

    for i in 0..3u64 {
        let mut hash_bytes = [0u8; 32];
        hash_bytes[0] = i as u8;
        let study_hash = hash_bytes;
        let attestation_hash = [1u8; 32];
        let timestamp = 12345 + i * 1000;

        registry
            .register_study(
                study_hash,
                owner,
                timestamp,
                lab_identifier.clone(),
                attestation_hash,
            )
            .unwrap();
    }

    let studies = registry.get_studies_by_owner(owner).unwrap();
    assert_eq!(studies.len(), 3);
}

#[test]
fn duplicate_registration_fails_and_changes_nothing() {
    let mut registry = StudyRegistry::new();
    let study_hash = [0u8; 32];
    let attestation_hash = [1u8; 32];

    registry
        .register_study(study_hash, 1, 12345, "LAB_001".to_string(), attestation_hash)
        .unwrap();

    let second = registry.register_study(
        study_hash,
        2,
        99999,
        "LAB_002".to_string(),
        [2u8; 32],
    );
    assert!(matches!(second, Err(Error::DuplicateStudy)));

    let study_data = registry.get_study_data(study_hash).unwrap();
    assert_eq!(study_data.owner, 1);
    assert_eq!(study_data.timestamp, 12345);
    assert_eq!(study_data.lab_identifier, "LAB_001".to_string());
    assert_eq!(study_data.attestation_hash, attestation_hash);
    assert_eq!(registry.get_study_hashes_by_owner(1).len(), 1);
    assert_eq!(registry.get_study_hashes_by_owner(2).len(), 0);
}

#[test]
fn get_study_data_absent_is_not_found() {
    let registry = StudyRegistry::new();
    assert!(matches!(
        registry.get_study_data([9u8; 32]),
        Err(Error::StudyNotFound)
    ));
    assert!(matches!(
        registry.get_study_metadata([9u8; 32]),
        Err(Error::StudyNotFound)
    ));
}

#[test]
fn get_study_metadata_projects_two_fields() {
    let mut registry = StudyRegistry::new();
    let study_hash = [3u8; 32];
    registry
        .register_study(study_hash, 5, 777, "LAB_042".to_string(), [4u8; 32])
        .unwrap();
    let (timestamp, lab_identifier) = registry.get_study_metadata(study_hash).unwrap();
    assert_eq!(timestamp, 777);
    assert_eq!(lab_identifier, "LAB_042".to_string());
}

#[test]
fn owner_index_keeps_registration_order() {
    let mut registry = StudyRegistry::new();
    let owner: u64 = 4;
    let hashes = [[10u8; 32], [11u8; 32], [12u8; 32]];
    for (i, h) in hashes.iter().enumerate() {
        registry
            .register_study(*h, owner, i as u64, "LAB_001".to_string(), [0u8; 32])
            .unwrap();
    }
    // one other owner in between must not disturb the index
    registry
        .register_study([13u8; 32], 9, 0, "LAB_001".to_string(), [0u8; 32])
        .unwrap();

    let listed = registry.get_study_hashes_by_owner(owner);
    assert_eq!(listed.len(), 3);
    for (i, h) in hashes.iter().enumerate() {
        assert_eq!(listed[i], *h);
    }
    assert_eq!(registry.get_study_hashes_by_owner(9).len(), 1);

    let rows = registry.get_studies_by_owner(owner).unwrap();
    assert_eq!(rows.len(), 3);
    for (i, row) in rows.iter().enumerate() {
        assert_eq!(row.study_hash, hashes[i]);
        assert_eq!(row.timestamp, i as u64);
        assert_eq!(row.lab_identifier, "LAB_001".to_string());
    }
}

#[test]
fn register_study_returns_the_emitted_event() {
    let mut registry = StudyRegistry::new();
    let event = registry
        .register_study([6u8; 32], 8, 4242, "LAB_007".to_string(), [7u8; 32])
        .unwrap();
    assert_eq!(event.study_hash, [6u8; 32]);
    assert_eq!(event.owner, 8);
    assert_eq!(event.timestamp, 4242);
    assert_eq!(event.lab_identifier, "LAB_007".to_string());
    assert_eq!(event.attestation_hash, [7u8; 32]);
}
