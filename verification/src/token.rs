use vstd::prelude::*;

use crate::account::AccountId;
use crate::token_impl::spec_balance_of;
use crate::token_impl::Balance;
use crate::token_impl::LedgerState;
use crate::token_impl::ProjectId;

verus! {

/// The read-only query surface of the ledger. Neither query can fail, and an
/// unregistered pair reads as zero.
pub trait OccTokenCore {
    /// The abstract ledger state the queries are answered from.
    spec fn abs_state(&self) -> LedgerState;

    /// The validity condition under which the queries are exact.
    spec fn inv(&self) -> bool;

    /// The current aggregate supply.
    fn ft_total_supply(&self) -> (r: Balance)
        requires
            self.inv(),
        ensures
            r == self.abs_state().total_supply,
    ;

    /// The balance stored for the pair, or zero when the account or the
    /// project has never been registered.
    fn ft_balance_of_project(&self, account_id: AccountId, project_id: ProjectId) -> (r: Balance)
        requires
            self.inv(),
        ensures
            r == spec_balance_of(self.abs_state(), account_id@, project_id),
    ;
}

} // verus!
