use occ_token::AccountId;
use occ_token::LedgerError;
use occ_token::OCCToken;
use occ_token::OccTokenCore;
use occ_token::TokenStorageKey;
use occ_token::MAX_ACCOUNT_ID_LEN;

#[test]
fn account_id_accepts_bounded_names() {
    assert!(AccountId::new("a".to_string()).is_some());
    let longest = "a".repeat(MAX_ACCOUNT_ID_LEN);
    assert!(AccountId::new(longest).is_some());
}

#[test]
fn account_id_rejects_empty_and_oversized_names() {
    assert!(AccountId::new(String::new()).is_none());
    let too_long = "a".repeat(MAX_ACCOUNT_ID_LEN + 1);
    assert!(AccountId::new(too_long).is_none());
}

#[test]
fn account_id_reports_its_length() {
    let alice = AccountId::new("alice".to_string()).unwrap();
    assert_eq!(alice.char_len(), 5);
}

#[test]
fn account_ids_compare_by_name() {
    let a = AccountId::new("alice".to_string()).unwrap();
    let b = AccountId::new("alice".to_string()).unwrap();
    let c = AccountId::new("bob".to_string()).unwrap();
    assert_eq!(a, b);
    assert_eq!(a, a.clone());
    assert!(a != c);
}

#[test]
fn storage_probe_charges_one_maximum_size_entry() {
    // A maximum-length key (4 framing bytes plus 64 characters) carrying one
    // project entry (8 bytes of project id, 16 bytes of balance).
    let token = OCCToken::new(TokenStorageKey::OccToken);
    assert_eq!(token.account_storage_usage(), 4 + 64 + 24);
}

#[test]
fn storage_probe_leaves_no_synthetic_account_behind() {
    let mut token = OCCToken::new(TokenStorageKey::OccToken);
    let probe_name = AccountId::new("a".repeat(MAX_ACCOUNT_ID_LEN)).unwrap();
    assert_eq!(token.ft_balance_of_project(probe_name.clone(), 1), 0);
    assert_eq!(token.ft_total_supply(), 0);
    assert_eq!(
        token.internal_deposit(&probe_name, &1, 1),
        Err(LedgerError::AccountNotRegistered)
    );
    assert_eq!(token.internal_register_account(&probe_name, &1), Ok(()));
}
