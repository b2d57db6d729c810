use occ_token::AccountId;
use occ_token::LedgerError;
use occ_token::OCCToken;
use occ_token::OccTokenCore;
use occ_token::TokenStorageKey;

fn account(name: &str) -> AccountId {
    AccountId::new(name.to_string()).unwrap()
}

fn fresh_token() -> OCCToken {
    OCCToken::new(TokenStorageKey::OccToken)
}

#[test]
fn total_supply_starts_at_zero() {
    let token = fresh_token();
    assert_eq!(token.ft_total_supply(), 0);
}

#[test]
fn register_and_deposit() {
    let mut token = fresh_token();
    let alice = account("alice");
    assert_eq!(token.internal_register_account(&alice, &1), Ok(()));
    assert_eq!(token.internal_deposit(&alice, &1, 1_000), Ok(()));
    assert_eq!(token.ft_balance_of_project(alice.clone(), 1), 1_000);
    assert_eq!(token.ft_total_supply(), 1_000);
}

#[test]
fn initial_supply_goes_to_the_owner() {
    let mut token = fresh_token();
    let owner = account("owner");
    let total_supply: u128 = 1_000_000_000_000_000;
    assert_eq!(token.internal_register_account(&owner, &1), Ok(()));
    assert_eq!(token.internal_deposit(&owner, &1, total_supply), Ok(()));
    assert_eq!(token.ft_total_supply(), total_supply);
    assert_eq!(token.ft_balance_of_project(owner.clone(), 1), total_supply);
}

#[test]
fn deposit_without_registration_fails() {
    let mut token = fresh_token();
    let bob = account("bob");
    assert_eq!(
        token.internal_deposit(&bob, &1, 1),
        Err(LedgerError::AccountNotRegistered)
    );
    assert_eq!(token.ft_total_supply(), 0);
}

#[test]
fn register_twice_fails_and_changes_nothing() {
    let mut token = fresh_token();
    let alice = account("alice");
    assert_eq!(token.internal_register_account(&alice, &1), Ok(()));
    assert_eq!(
        token.internal_register_account(&alice, &1),
        Err(LedgerError::AccountAlreadyRegistered)
    );
    assert_eq!(token.ft_balance_of_project(alice.clone(), 1), 0);
    assert_eq!(token.ft_total_supply(), 0);
}

#[test]
fn deposit_overflow_is_rejected_atomically() {
    let mut token = fresh_token();
    let alice = account("alice");
    assert_eq!(token.internal_register_account(&alice, &1), Ok(()));
    assert_eq!(token.internal_deposit(&alice, &1, 1), Ok(()));
    assert_eq!(
        token.internal_deposit(&alice, &1, u128::MAX),
        Err(LedgerError::BalanceOverflow)
    );
    assert_eq!(token.ft_balance_of_project(alice.clone(), 1), 1);
    assert_eq!(token.ft_total_supply(), 1);
}

#[test]
fn supply_overflow_is_rejected_atomically() {
    let mut token = fresh_token();
    let alice = account("alice");
    let bob = account("bob");
    assert_eq!(token.internal_register_account(&alice, &1), Ok(()));
    assert_eq!(token.internal_deposit(&alice, &1, u128::MAX), Ok(()));
    assert_eq!(token.internal_register_account(&bob, &2), Ok(()));
    assert_eq!(
        token.internal_deposit(&bob, &2, u128::MAX),
        Err(LedgerError::SupplyOverflow)
    );
    assert_eq!(token.ft_balance_of_project(bob.clone(), 2), 0);
    assert_eq!(token.ft_total_supply(), u128::MAX);
}

#[test]
fn deposit_on_unregistered_project_fails() {
    let mut token = fresh_token();
    let alice = account("alice");
    assert_eq!(token.internal_register_account(&alice, &1), Ok(()));
    assert_eq!(
        token.internal_deposit(&alice, &2, 5),
        Err(LedgerError::ProjectNotRegistered)
    );
    assert_eq!(token.ft_balance_of_project(alice.clone(), 1), 0);
    assert_eq!(token.ft_total_supply(), 0);
}

#[test]
fn two_deposits_equal_one_combined_deposit() {
    let mut split = fresh_token();
    let mut combined = fresh_token();
    let alice = account("alice");
    assert_eq!(split.internal_register_account(&alice, &7), Ok(()));
    assert_eq!(combined.internal_register_account(&alice, &7), Ok(()));
    assert_eq!(split.internal_deposit(&alice, &7, 700), Ok(()));
    assert_eq!(split.internal_deposit(&alice, &7, 300), Ok(()));
    assert_eq!(combined.internal_deposit(&alice, &7, 1_000), Ok(()));
    assert_eq!(
        split.ft_balance_of_project(alice.clone(), 7),
        combined.ft_balance_of_project(alice.clone(), 7)
    );
    assert_eq!(split.ft_total_supply(), combined.ft_total_supply());
}

#[test]
fn reads_never_fail_and_default_to_zero() {
    let mut token = fresh_token();
    let alice = account("alice");
    let ghostly = account("never-registered");
    assert_eq!(token.ft_balance_of_project(ghostly.clone(), 1), 0);
    assert_eq!(token.internal_register_account(&alice, &1), Ok(()));
    assert_eq!(token.ft_balance_of_project(alice.clone(), 99), 0);
    assert_eq!(token.ft_balance_of_project(ghostly.clone(), 1), 0);
}

#[test]
fn unwrap_helpers_report_the_missing_entry() {
    let mut token = fresh_token();
    let alice = account("alice");
    let bob = account("bob");
    assert_eq!(token.internal_register_account(&alice, &1), Ok(()));
    assert_eq!(token.internal_deposit(&alice, &1, 42), Ok(()));
    let projects = token.internal_unwrap_projects_of(&alice).unwrap();
    assert_eq!(token.internal_unwrap_balance(projects, &1), Ok(42));
    assert_eq!(
        token.internal_unwrap_balance(projects, &2),
        Err(LedgerError::ProjectNotRegistered)
    );
    assert!(matches!(
        token.internal_unwrap_projects_of(&bob),
        Err(LedgerError::AccountNotRegistered)
    ));
}
