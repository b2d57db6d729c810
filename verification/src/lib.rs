//! A verified fungible-token ledger.
//!
//! The ledger tracks token balances per account, subdivided by a project
//! identifier, together with a running total supply. Registration creates the
//! initial zero balance for an (account, project) pair; deposits use checked
//! arithmetic and fail atomically, so that after every successful operation
//! the total supply equals the sum of all registered balances.

pub mod account;
pub mod token;
pub mod token_impl;

pub use account::AccountId;
pub use account::MAX_ACCOUNT_ID_LEN;
pub use token::OccTokenCore;
pub use token_impl::Balance;
pub use token_impl::LedgerError;
pub use token_impl::LedgerState;
pub use token_impl::OCCToken;
pub use token_impl::ProjectId;
pub use token_impl::Projects;
pub use token_impl::StorageUsage;
pub use token_impl::TokenStorageKey;
