use vstd::prelude::*;

use crate::account::AccountId;

verus! {

/// A storage size, in bytes.
pub type StorageUsage = u64;

/// An opaque identifier scoping a balance within an account.
pub type ProjectId = u64;

/// A non-negative token amount.
pub type Balance = u128;

/// Why a ledger operation was rejected. Every kind is terminal for the
/// operation that raised it, and a rejected operation changes no state.
#[derive(Clone, Copy, PartialEq, Eq, Structural, Debug)]
pub enum LedgerError {
    /// `register_account` found an entry for the account already.
    AccountAlreadyRegistered,
    /// `deposit` found no entry for the account.
    AccountNotRegistered,
    /// `deposit` found the account, but no balance entry for the project.
    ProjectNotRegistered,
    /// The per-account addition would exceed the `Balance` range.
    BalanceOverflow,
    /// The total-supply addition would exceed the `Balance` range.
    SupplyOverflow,
}

/// The storage namespace under which a ledger keeps its entries.
pub enum TokenStorageKey {
    OccToken,
}

/// The per-account map from project identifier to balance, kept as an
/// association list with pairwise distinct keys.
pub struct Projects {
    entries: Vec<(ProjectId, Balance)>,
}

spec fn proj_map(s: Seq<(ProjectId, Balance)>) -> Map<ProjectId, Balance>
    decreases s.len(),
{
    if s.len() == 0 {
        Map::empty()
    } else {
        proj_map(s.drop_last()).insert(s.last().0, s.last().1)
    }
}

spec fn proj_sum(s: Seq<(ProjectId, Balance)>) -> int
    decreases s.len(),
{
    if s.len() == 0 {
        0
    } else {
        proj_sum(s.drop_last()) + s.last().1
    }
}

spec fn proj_keys_unique(s: Seq<(ProjectId, Balance)>) -> bool {
    forall|i: int, j: int| 0 <= i < j < s.len() ==> s[i].0 != s[j].0
}

proof fn lemma_proj_map_index(s: Seq<(ProjectId, Balance)>, i: int)
    requires
        proj_keys_unique(s),
        0 <= i < s.len(),
    ensures
        proj_map(s).contains_key(s[i].0),
        proj_map(s)[s[i].0] == s[i].1,
    decreases s.len(),
{
    if i < s.len() - 1 {
        lemma_proj_map_index(s.drop_last(), i);
        assert(s.drop_last()[i] == s[i]);
        assert(s.last().0 != s[i].0);
    }
}

proof fn lemma_proj_map_absent(s: Seq<(ProjectId, Balance)>, k: ProjectId)
    requires
        forall|i: int| 0 <= i < s.len() ==> s[i].0 != k,
    ensures
        !proj_map(s).contains_key(k),
    decreases s.len(),
{
    if s.len() > 0 {
        assert(forall|i: int| 0 <= i < s.drop_last().len() ==> s.drop_last()[i].0 != k);
        lemma_proj_map_absent(s.drop_last(), k);
        assert(s.last() == s[s.len() - 1]);
    }
}

proof fn lemma_proj_map_contains_exists(s: Seq<(ProjectId, Balance)>, k: ProjectId)
    requires
        proj_map(s).contains_key(k),
    ensures
        exists|i: int| 0 <= i < s.len() && s[i].0 == k,
    decreases s.len(),
{
    if s.len() > 0 {
        if s.last().0 == k {
            assert(s[s.len() - 1].0 == k);
        } else {
            lemma_proj_map_contains_exists(s.drop_last(), k);
            let i = choose|i: int| 0 <= i < s.drop_last().len() && s.drop_last()[i].0 == k;
            assert(s[i].0 == k);
        }
    }
}

proof fn lemma_proj_map_update(s: Seq<(ProjectId, Balance)>, i: int, v: Balance)
    requires
        proj_keys_unique(s),
        0 <= i < s.len(),
    ensures
        proj_map(s.update(i, (s[i].0, v))) == proj_map(s).insert(s[i].0, v),
        proj_keys_unique(s.update(i, (s[i].0, v))),
    decreases s.len(),
{
    let t = s.update(i, (s[i].0, v));
    if i == s.len() - 1 {
        assert(t.drop_last() =~= s.drop_last());
        assert(proj_map(t) =~= proj_map(s).insert(s[i].0, v));
    } else {
        assert(t.drop_last() =~= s.drop_last().update(i, (s[i].0, v)));
        assert(s.drop_last()[i] == s[i]);
        lemma_proj_map_update(s.drop_last(), i, v);
        assert(s.last().0 != s[i].0);
        assert(t.last() == s.last());
        assert(proj_map(t) =~= proj_map(s).insert(s[i].0, v));
    }
    assert(forall|p: int, q: int| 0 <= p < q < t.len() ==> t[p].0 != t[q].0);
}

proof fn lemma_proj_sum_update(s: Seq<(ProjectId, Balance)>, i: int, v: Balance)
    requires
        0 <= i < s.len(),
    ensures
        proj_sum(s.update(i, (s[i].0, v))) == proj_sum(s) - s[i].1 + v,
    decreases s.len(),
{
    let t = s.update(i, (s[i].0, v));
    if i == s.len() - 1 {
        assert(t.drop_last() =~= s.drop_last());
    } else {
        assert(t.drop_last() =~= s.drop_last().update(i, (s[i].0, v)));
        assert(s.drop_last()[i] == s[i]);
        lemma_proj_sum_update(s.drop_last(), i, v);
        assert(t.last() == s.last());
    }
}

proof fn lemma_proj_sum_nonneg(s: Seq<(ProjectId, Balance)>)
    ensures
        proj_sum(s) >= 0,
    decreases s.len(),
{
    if s.len() > 0 {
        lemma_proj_sum_nonneg(s.drop_last());
    }
}

proof fn lemma_proj_sum_element(s: Seq<(ProjectId, Balance)>, i: int)
    requires
        0 <= i < s.len(),
    ensures
        s[i].1 <= proj_sum(s),
    decreases s.len(),
{
    if i == s.len() - 1 {
        lemma_proj_sum_nonneg(s.drop_last());
    } else {
        lemma_proj_sum_element(s.drop_last(), i);
        assert(s.drop_last()[i] == s[i]);
    }
}

impl View for Projects {
    type V = Map<ProjectId, Balance>;

    closed spec fn view(&self) -> Map<ProjectId, Balance> {
        proj_map(self.entries@)
    }
}

impl Projects {
    /// The keys of the underlying entries are pairwise distinct.
    pub closed spec fn wf(&self) -> bool {
        proj_keys_unique(self.entries@)
    }

    /// The sum of all balances held in this per-account map.
    pub closed spec fn sum(&self) -> int {
        proj_sum(self.entries@)
    }

    /// How many projects carry a balance entry in this map.
    pub closed spec fn project_count(&self) -> int {
        self.entries@.len() as int
    }

    /// A fresh per-account map holding exactly one project entry.
    pub fn with_entry(project_id: ProjectId, balance: Balance) -> (r: Projects)
        ensures
            r.wf(),
            r@ == Map::<ProjectId, Balance>::empty().insert(project_id, balance),
            r.sum() == balance,
            r.project_count() == 1,
    {
        let mut entries: Vec<(ProjectId, Balance)> = Vec::new();
        entries.push((project_id, balance));
        proof {
            assert(entries@.len() == 1);
            assert(entries@.last() == (project_id, balance));
            assert(entries@.drop_last() =~= Seq::<(ProjectId, Balance)>::empty());
            assert(proj_map(Seq::<(ProjectId, Balance)>::empty()) == Map::<
                ProjectId,
                Balance,
            >::empty());
            assert(proj_sum(Seq::<(ProjectId, Balance)>::empty()) == 0);
            assert(proj_map(entries@) =~= Map::<ProjectId, Balance>::empty().insert(
                project_id,
                balance,
            ));
            assert(proj_sum(entries@) == balance);
        }
        Projects { entries }
    }

    /// How many projects carry a balance entry in this map.
    pub fn entry_count(&self) -> (n: usize)
        ensures
            n as int == self.project_count(),
    {
        self.entries.len()
    }

    /// The balance entry stored for a project, if the project is registered.
    pub fn get(&self, project_id: &ProjectId) -> (r: Option<Balance>)
        requires
            self.wf(),
        ensures
            r == if self@.contains_key(*project_id) {
                Some(self@[*project_id])
            } else {
                None::<Balance>
            },
    {
        let ghost s = self.entries@;
        let n = self.entries.len();
        let mut j: usize = 0;
        while j < n
            invariant
                n == s.len(),
                j <= n,
                s == self.entries@,
                self.wf(),
                forall|k: int| 0 <= k < j ==> s[k].0 != *project_id,
            decreases n - j,
        {
            let e = self.entries[j];
            if e.0 == *project_id {
                proof {
                    lemma_proj_map_index(s, j as int);
                }
                return Some(e.1);
            }
            j += 1;
        }
        proof {
            lemma_proj_map_absent(s, *project_id);
        }
        None
    }

    /// Overwrites the balance entry of an already registered project.
    fn set_existing(&mut self, project_id: &ProjectId, balance: Balance)
        requires
            old(self).wf(),
            old(self)@.contains_key(*project_id),
        ensures
            final(self).wf(),
            final(self)@ == old(self)@.insert(*project_id, balance),
            final(self).sum() == old(self).sum() - old(self)@[*project_id] + balance,
            final(self).project_count() == old(self).project_count(),
    {
        let ghost s = self.entries@;
        proof {
            lemma_proj_map_contains_exists(s, *project_id);
        }
        let n = self.entries.len();
        let mut j: usize = 0;
        while j < n
            invariant
                n == s.len(),
                j <= n,
                s == self.entries@,
                self == old(self),
                self.wf(),
                exists|k: int| j <= k < n && s[k].0 == *project_id,
            decreases n - j,
        {
            let e = self.entries[j];
            if e.0 == *project_id {
                let slot = &mut self.entries[j];
                *slot = (*project_id, balance);
                proof {
                    lemma_proj_map_index(s, j as int);
                    assert(s[j as int] == (s[j as int].0, s[j as int].1));
                    lemma_proj_map_update(s, j as int, balance);
                    lemma_proj_sum_update(s, j as int, balance);
                    assert(self.entries@ == s.update(j as int, (*project_id, balance)));
                }
                return;
            }
            j += 1;
        }
        proof {
            assert(false);
        }
    }
}

/// The abstract state of a ledger: which (account, project) pairs are
/// registered, what balance each holds, and the running total supply.
pub struct LedgerState {
    pub accounts: Map<Seq<char>, Map<ProjectId, Balance>>,
    pub total_supply: Balance,
}

/// What registering an account does to the abstract state: it fails if and
/// only if the account already has an entry, and otherwise creates a
/// per-account map holding exactly one zero balance for the given project.
pub open spec fn spec_register(s: LedgerState, account: Seq<char>, project: ProjectId) -> Result<
    LedgerState,
    LedgerError,
> {
    if s.accounts.contains_key(account) {
        Err(LedgerError::AccountAlreadyRegistered)
    } else {
        Ok(
            LedgerState {
                accounts: s.accounts.insert(
                    account,
                    Map::<ProjectId, Balance>::empty().insert(project, 0),
                ),
                total_supply: s.total_supply,
            },
        )
    }
}

/// What depositing does to the abstract state: both the account and the exact
/// project must be registered, and both checked additions must fit, otherwise
/// the named error is returned and nothing changes.
pub open spec fn spec_deposit(
    s: LedgerState,
    account: Seq<char>,
    project: ProjectId,
    amount: Balance,
) -> Result<LedgerState, LedgerError> {
    if !s.accounts.contains_key(account) {
        Err(LedgerError::AccountNotRegistered)
    } else if !s.accounts[account].contains_key(project) {
        Err(LedgerError::ProjectNotRegistered)
    } else if s.accounts[account][project] + amount > u128::MAX {
        Err(LedgerError::BalanceOverflow)
    } else if s.total_supply + amount > u128::MAX {
        Err(LedgerError::SupplyOverflow)
    } else {
        Ok(
            LedgerState {
                accounts: s.accounts.insert(
                    account,
                    s.accounts[account].insert(
                        project,
                        (s.accounts[account][project] + amount) as Balance,
                    ),
                ),
                total_supply: (s.total_supply + amount) as Balance,
            },
        )
    }
}

/// The balance a read returns: the stored entry if the pair is registered,
/// and zero otherwise. A read never fails.
pub open spec fn spec_balance_of(s: LedgerState, account: Seq<char>, project: ProjectId) -> Balance {
    if s.accounts.contains_key(account) && s.accounts[account].contains_key(project) {
        s.accounts[account][project]
    } else {
        0
    }
}

spec fn acct_map(s: Seq<(AccountId, Projects)>) -> Map<Seq<char>, Map<ProjectId, Balance>>
    decreases s.len(),
{
    if s.len() == 0 {
        Map::empty()
    } else {
        acct_map(s.drop_last()).insert(s.last().0@, s.last().1@)
    }
}

spec fn acct_sum(s: Seq<(AccountId, Projects)>) -> int
    decreases s.len(),
{
    if s.len() == 0 {
        0
    } else {
        acct_sum(s.drop_last()) + s.last().1.sum()
    }
}

spec fn acct_keys_unique(s: Seq<(AccountId, Projects)>) -> bool {
    forall|i: int, j: int| 0 <= i < j < s.len() ==> s[i].0@ != s[j].0@
}

spec fn acct_all_wf(s: Seq<(AccountId, Projects)>) -> bool {
    forall|i: int| 0 <= i < s.len() ==> (#[trigger] s[i]).1.wf()
}

proof fn lemma_acct_map_index(s: Seq<(AccountId, Projects)>, i: int)
    requires
        acct_keys_unique(s),
        0 <= i < s.len(),
    ensures
        acct_map(s).contains_key(s[i].0@),
        acct_map(s)[s[i].0@] == s[i].1@,
    decreases s.len(),
{
    if i < s.len() - 1 {
        lemma_acct_map_index(s.drop_last(), i);
        assert(s.drop_last()[i] == s[i]);
        assert(s.last().0@ != s[i].0@);
    }
}

proof fn lemma_acct_map_absent(s: Seq<(AccountId, Projects)>, a: Seq<char>)
    requires
        forall|i: int| 0 <= i < s.len() ==> s[i].0@ != a,
    ensures
        !acct_map(s).contains_key(a),
    decreases s.len(),
{
    if s.len() > 0 {
        assert(forall|i: int| 0 <= i < s.drop_last().len() ==> s.drop_last()[i].0@ != a);
        lemma_acct_map_absent(s.drop_last(), a);
        assert(s.last() == s[s.len() - 1]);
    }
}

proof fn lemma_acct_map_update(s: Seq<(AccountId, Projects)>, i: int, e: (AccountId, Projects))
    requires
        acct_keys_unique(s),
        0 <= i < s.len(),
        e.0@ == s[i].0@,
    ensures
        acct_map(s.update(i, e)) == acct_map(s).insert(s[i].0@, e.1@),
        acct_keys_unique(s.update(i, e)),
    decreases s.len(),
{
    let t = s.update(i, e);
    if i == s.len() - 1 {
        assert(t.drop_last() =~= s.drop_last());
        assert(acct_map(t) =~= acct_map(s).insert(s[i].0@, e.1@));
    } else {
        assert(t.drop_last() =~= s.drop_last().update(i, e));
        assert(s.drop_last()[i] == s[i]);
        lemma_acct_map_update(s.drop_last(), i, e);
        assert(s.last().0@ != s[i].0@);
        assert(t.last() == s.last());
        assert(acct_map(t) =~= acct_map(s).insert(s[i].0@, e.1@));
    }
    assert(forall|p: int, q: int| 0 <= p < q < t.len() ==> t[p].0@ != t[q].0@);
}

proof fn lemma_acct_sum_update(s: Seq<(AccountId, Projects)>, i: int, e: (AccountId, Projects))
    requires
        0 <= i < s.len(),
    ensures
        acct_sum(s.update(i, e)) == acct_sum(s) - s[i].1.sum() + e.1.sum(),
    decreases s.len(),
{
    let t = s.update(i, e);
    if i == s.len() - 1 {
        assert(t.drop_last() =~= s.drop_last());
    } else {
        assert(t.drop_last() =~= s.drop_last().update(i, e));
        assert(s.drop_last()[i] == s[i]);
        lemma_acct_sum_update(s.drop_last(), i, e);
        assert(t.last() == s.last());
    }
}

proof fn lemma_projects_sum_nonneg(p: Projects)
    ensures
        p.sum() >= 0,
{
    lemma_proj_sum_nonneg(p.entries@);
}

proof fn lemma_acct_sum_nonneg(s: Seq<(AccountId, Projects)>)
    ensures
        acct_sum(s) >= 0,
    decreases s.len(),
{
    if s.len() > 0 {
        lemma_acct_sum_nonneg(s.drop_last());
        lemma_projects_sum_nonneg(s.last().1);
    }
}

proof fn lemma_acct_sum_element(s: Seq<(AccountId, Projects)>, i: int)
    requires
        0 <= i < s.len(),
    ensures
        s[i].1.sum() <= acct_sum(s),
    decreases s.len(),
{
    if i == s.len() - 1 {
        lemma_acct_sum_nonneg(s.drop_last());
    } else {
        lemma_acct_sum_element(s.drop_last(), i);
        assert(s.drop_last()[i] == s[i]);
        lemma_projects_sum_nonneg(s.last().1);
    }
}

/// Bytes the store charges for the fixed framing of one account key.
pub const ACCOUNT_KEY_PREFIX_BYTES: u64 = 4;

/// Bytes one project entry occupies: an 8-byte project id and a 16-byte
/// balance.
pub const PROJECT_ENTRY_BYTES: u64 = 24;

/// The bytes one account entry occupies in the store: the framed key followed
/// by the per-project entries.
pub open spec fn spec_account_entry_bytes(id_len: int, projects: int) -> int {
    ACCOUNT_KEY_PREFIX_BYTES as int + id_len + projects * PROJECT_ENTRY_BYTES as int
}

/// The bytes the synthetic probe entry occupies: a maximum-length identifier
/// with a single project entry.
pub open spec fn spec_probe_entry_bytes() -> int {
    spec_account_entry_bytes(crate::account::MAX_ACCOUNT_ID_LEN as int, 1)
}

spec fn acct_bytes(s: Seq<(AccountId, Projects)>) -> int
    decreases s.len(),
{
    if s.len() == 0 {
        0
    } else {
        acct_bytes(s.drop_last()) + spec_account_entry_bytes(
            s.last().0@.len() as int,
            s.last().1.project_count(),
        )
    }
}

/// The ledger: the two-level account to project to balance mapping, the
/// running total supply, and the storage cost calibrated once at
/// construction.
pub struct OCCToken {
    accounts: Vec<(AccountId, Projects)>,
    total_supply: Balance,
    account_storage_usage: StorageUsage,
}

impl View for OCCToken {
    type V = LedgerState;

    closed spec fn view(&self) -> LedgerState {
        LedgerState { accounts: acct_map(self.accounts@), total_supply: self.total_supply }
    }
}

impl OCCToken {
    /// The ledger invariant: account keys are distinct, every per-account map
    /// is well formed, and the total supply equals the sum of every
    /// registered balance.
    pub closed spec fn well_formed(&self) -> bool {
        &&& acct_keys_unique(self.accounts@)
        &&& acct_all_wf(self.accounts@)
        &&& self.total_supply as int == acct_sum(self.accounts@)
    }

    /// The sum of every registered balance.
    pub closed spec fn spec_sum_of_balances(&self) -> int {
        acct_sum(self.accounts@)
    }

    /// The calibrated storage cost of one account entry, in bytes.
    pub closed spec fn spec_account_storage_usage(&self) -> StorageUsage {
        self.account_storage_usage
    }

    /// The calibrated per-account storage cost, as measured at construction.
    /// Advisory data for external fee or budgeting logic; the accounting
    /// invariants do not depend on it.
    pub fn account_storage_usage(&self) -> (r: StorageUsage)
        ensures
            r == self.spec_account_storage_usage(),
    {
        self.account_storage_usage
    }

    /// Builds an empty ledger under the given storage namespace and
    /// calibrates the per-account storage cost with a synthetic probe entry.
    pub fn new(_prefix: TokenStorageKey) -> (r: OCCToken)
        ensures
            r.well_formed(),
            r@.accounts == Map::<Seq<char>, Map<ProjectId, Balance>>::empty(),
            r@.total_supply == 0,
            r.spec_account_storage_usage() == spec_probe_entry_bytes(),
    {
        let mut this = OCCToken {
            accounts: Vec::new(),
            total_supply: 0,
            account_storage_usage: 0,
        };
        proof {
            assert(acct_sum(this.accounts@) == 0);
            assert(acct_map(this.accounts@) == Map::<Seq<char>, Map<ProjectId, Balance>>::empty());
        }
        this.measure_account_storage_usage();
        this
    }

    /// Measures the marginal storage cost of one account entry by inserting a
    /// synthetic entry with a maximum-length identifier and one project
    /// balance, reading the byte-usage counter before and after, and removing
    /// the synthetic entry again. Runs once, at construction, before any real
    /// account exists.
    fn measure_account_storage_usage(&mut self)
        requires
            old(self).well_formed(),
            old(self).accounts@.len() == 0,
        ensures
            final(self).well_formed(),
            final(self)@ == old(self)@,
            final(self).accounts@ == old(self).accounts@,
            final(self).spec_account_storage_usage() == spec_probe_entry_bytes(),
    {
        let ghost s0 = self.accounts@;
        proof {
            assert(acct_bytes(s0) == 0);
        }
        let initial_storage_usage = self.current_storage_bytes();
        let tmp_id = String::from_str(
            "aaaaaaaaaaaaaaaaaaaaaaaaaaaaaaaaaaaaaaaaaaaaaaaaaaaaaaaaaaaaaaaa",
        );
        proof {
            reveal_strlit("aaaaaaaaaaaaaaaaaaaaaaaaaaaaaaaaaaaaaaaaaaaaaaaaaaaaaaaaaaaaaaaa");
        }
        let tmp_account_id = match AccountId::new(tmp_id) {
            Some(a) => a,
            None => vstd::pervasive::unreached(),
        };
        let tmp_project_id: ProjectId = 1;
        let tmp_project_balance: Balance = 10000000;
        let tmp_projects = Projects::with_entry(tmp_project_id, tmp_project_balance);
        self.accounts.push((tmp_account_id, tmp_projects));
        proof {
            assert(self.accounts@.drop_last() =~= s0);
            assert(acct_bytes(self.accounts@) == spec_probe_entry_bytes());
        }
        let after_insert = self.current_storage_bytes();
        self.account_storage_usage = after_insert - initial_storage_usage;
        let _removed = self.accounts.pop();
        proof {
            assert(self.accounts@ =~= s0);
        }
    }

    /// Registers a not-yet-registered account, creating a per-account map
    /// holding exactly one zero balance for the given project. Fails with
    /// `AccountAlreadyRegistered`, changing nothing, if the account already
    /// has an entry.
    pub fn internal_register_account(
        &mut self,
        account_id: &AccountId,
        project_id: &ProjectId,
    ) -> (r: Result<(), LedgerError>)
        requires
            old(self).well_formed(),
        ensures
            final(self).well_formed(),
            final(self).spec_account_storage_usage() == old(self).spec_account_storage_usage(),
            match spec_register(old(self)@, account_id@, *project_id) {
                Ok(s1) => r == Ok::<(), LedgerError>(()) && final(self)@ == s1,
                Err(e) => r == Err::<(), LedgerError>(e) && final(self)@ == old(self)@,
            },
    {
        match self.find_account(account_id) {
            Some(_) => Err(LedgerError::AccountAlreadyRegistered),
            None => {
                let ghost s0 = self.accounts@;
                let projects = Projects::with_entry(*project_id, 0);
                self.accounts.push((account_id.clone(), projects));
                proof {
                    let t = self.accounts@;
                    assert(t.drop_last() =~= s0);
                    assert(forall|k: int| 0 <= k < s0.len() ==> t[k] == s0[k]);
                    assert(t.last().0@ == account_id@);
                    assert forall|p: int, q: int| 0 <= p < q < t.len() implies t[p].0@
                        != t[q].0@ by {
                        assert(t[p] == s0[p]);
                        if q < t.len() - 1 {
                            assert(t[q] == s0[q]);
                        }
                    }
                    assert forall|k: int| 0 <= k < t.len() implies (#[trigger] t[k]).1.wf() by {
                        if k < t.len() - 1 {
                            assert(t[k] == s0[k]);
                        }
                    }
                    assert(acct_sum(t) == acct_sum(s0));
                    assert(acct_map(t) == acct_map(s0).insert(account_id@, projects@));
                }
                Ok(())
            },
        }
    }

    /// Adds `amount` to the balance of an already registered (account,
    /// project) pair and to the total supply, both by checked addition.
    /// Every failure is reported by its kind and leaves the ledger exactly as
    /// it was before the call.
    pub fn internal_deposit(
        &mut self,
        account_id: &AccountId,
        project_id: &ProjectId,
        amount: Balance,
    ) -> (r: Result<(), LedgerError>)
        requires
            old(self).well_formed(),
        ensures
            final(self).well_formed(),
            final(self).spec_account_storage_usage() == old(self).spec_account_storage_usage(),
            match spec_deposit(old(self)@, account_id@, *project_id, amount) {
                Ok(s1) => r == Ok::<(), LedgerError>(()) && final(self)@ == s1,
                Err(e) => r == Err::<(), LedgerError>(e) && final(self)@ == old(self)@,
            },
    {
        let i = match self.find_account(account_id) {
            None => {
                return Err(LedgerError::AccountNotRegistered);
            },
            Some(i) => i,
        };
        proof {
            assert((#[trigger] self.accounts@[i as int]).1.wf());
        }
        let old_balance = match self.accounts[i].1.get(project_id) {
            None => {
                return Err(LedgerError::ProjectNotRegistered);
            },
            Some(b) => b,
        };
        if amount > u128::MAX - old_balance {
            return Err(LedgerError::BalanceOverflow);
        }
        if amount > u128::MAX - self.total_supply {
            return Err(LedgerError::SupplyOverflow);
        }
        let new_balance = old_balance + amount;
        let ghost s0 = self.accounts@;
        let entry = &mut self.accounts[i];
        entry.1.set_existing(project_id, new_balance);
        proof {
            let t = self.accounts@;
            let e = t[i as int];
            assert(t == s0.update(i as int, e));
            assert(e.0 == s0[i as int].0);
            lemma_acct_map_update(s0, i as int, e);
            lemma_acct_sum_update(s0, i as int, e);
            assert forall|k: int| 0 <= k < t.len() implies (#[trigger] t[k]).1.wf() by {
                if k != i as int {
                    assert(t[k] == s0[k]);
                }
            }
        }
        self.total_supply = self.total_supply + amount;
        Ok(())
    }

    /// Looks up the per-account map, failing with `AccountNotRegistered` when
    /// the account has no entry.
    pub fn internal_unwrap_projects_of(&self, account_id: &AccountId) -> (r: Result<
        &Projects,
        LedgerError,
    >)
        requires
            self.well_formed(),
        ensures
            match r {
                Ok(p) => {
                    &&& self@.accounts.contains_key(account_id@)
                    &&& p@ == self@.accounts[account_id@]
                    &&& p.wf()
                },
                Err(e) => e == LedgerError::AccountNotRegistered && !self@.accounts.contains_key(
                    account_id@,
                ),
            },
    {
        match self.find_account(account_id) {
            Some(i) => {
                proof {
                    assert((#[trigger] self.accounts@[i as int]).1.wf());
                }
                Ok(&self.accounts[i].1)
            },
            None => Err(LedgerError::AccountNotRegistered),
        }
    }

    /// Looks up a project's balance entry in a per-account map, failing with
    /// `ProjectNotRegistered` when the project has none.
    pub fn internal_unwrap_balance(&self, projects: &Projects, project_id: &ProjectId) -> (r:
        Result<Balance, LedgerError>)
        requires
            projects.wf(),
        ensures
            match r {
                Ok(b) => projects@.contains_key(*project_id) && b == projects@[*project_id],
                Err(e) => e == LedgerError::ProjectNotRegistered && !projects@.contains_key(
                    *project_id,
                ),
            },
    {
        match projects.get(project_id) {
            Some(b) => Ok(b),
            None => Err(LedgerError::ProjectNotRegistered),
        }
    }

    fn find_account(&self, account_id: &AccountId) -> (r: Option<usize>)
        requires
            self.well_formed(),
        ensures
            match r {
                Some(i) => {
                    &&& i < self.accounts@.len()
                    &&& self.accounts@[i as int].0@ == account_id@
                    &&& self@.accounts.contains_key(account_id@)
                    &&& self@.accounts[account_id@] == self.accounts@[i as int].1@
                },
                None => !self@.accounts.contains_key(account_id@) && forall|i: int|
                    0 <= i < self.accounts@.len() ==> self.accounts@[i].0@ != account_id@,
            },
    {
        let ghost s = self.accounts@;
        let n = self.accounts.len();
        let mut j: usize = 0;
        while j < n
            invariant
                n == s.len(),
                j <= n,
                s == self.accounts@,
                self.well_formed(),
                forall|k: int| 0 <= k < j ==> s[k].0@ != account_id@,
            decreases n - j,
        {
            if self.accounts[j].0 == *account_id {
                proof {
                    lemma_acct_map_index(s, j as int);
                }
                return Some(j);
            }
            j += 1;
        }
        proof {
            lemma_acct_map_absent(s, account_id@);
        }
        None
    }

    fn current_storage_bytes(&self) -> (r: u64)
        requires
            acct_bytes(self.accounts@) <= u64::MAX,
        ensures
            r as int == acct_bytes(self.accounts@),
    {
        let ghost s = self.accounts@;
        let n = self.accounts.len();
        let mut total: u64 = 0;
        let mut j: usize = 0;
        proof {
            assert(s.subrange(0, 0) =~= Seq::<(AccountId, Projects)>::empty());
        }
        while j < n
            invariant
                n == s.len(),
                j <= n,
                s == self.accounts@,
                acct_bytes(s) <= u64::MAX,
                total as int == acct_bytes(s.subrange(0, j as int)),
            decreases n - j,
        {
            let entry = &self.accounts[j];
            let id_len = entry.0.char_len();
            let project_count = entry.1.entry_count();
            proof {
                assert(s.subrange(0, j as int + 1).drop_last() =~= s.subrange(0, j as int));
                assert(s.subrange(0, j as int + 1).last() == s[j as int]);
                assert(acct_bytes(s.subrange(0, j as int + 1)) == acct_bytes(
                    s.subrange(0, j as int),
                ) + spec_account_entry_bytes(
                    s[j as int].0@.len() as int,
                    s[j as int].1.project_count(),
                ));
                lemma_acct_bytes_prefix(s, j as int + 1);
            }
            let entry_bytes = ACCOUNT_KEY_PREFIX_BYTES + (id_len as u64) + PROJECT_ENTRY_BYTES * (
            project_count as u64);
            total = total + entry_bytes;
            j += 1;
        }
        proof {
            assert(s.subrange(0, n as int) =~= s);
        }
        total
    }
}

impl crate::token::OccTokenCore for OCCToken {
    open spec fn abs_state(&self) -> LedgerState {
        self@
    }

    open spec fn inv(&self) -> bool {
        self.well_formed()
    }

    fn ft_total_supply(&self) -> (r: Balance) {
        self.total_supply
    }

    fn ft_balance_of_project(&self, account_id: AccountId, project_id: ProjectId) -> (r: Balance) {
        match self.find_account(&account_id) {
            None => 0,
            Some(i) => {
                proof {
                    assert((#[trigger] self.accounts@[i as int]).1.wf());
                }
                match self.accounts[i].1.get(&project_id) {
                    None => 0,
                    Some(b) => b,
                }
            },
        }
    }
}

proof fn lemma_acct_bytes_term_nonneg(s: Seq<(AccountId, Projects)>, i: int)
    requires
        0 <= i < s.len(),
    ensures
        spec_account_entry_bytes(s[i].0@.len() as int, s[i].1.project_count()) >= 0,
{
}

proof fn lemma_acct_bytes_prefix(s: Seq<(AccountId, Projects)>, j: int)
    requires
        0 <= j <= s.len(),
    ensures
        acct_bytes(s.subrange(0, j)) <= acct_bytes(s),
    decreases s.len() - j,
{
    if j == s.len() {
        assert(s.subrange(0, j) =~= s);
    } else {
        lemma_acct_bytes_prefix(s, j + 1);
        assert(s.subrange(0, j + 1).drop_last() =~= s.subrange(0, j));
        assert(s.subrange(0, j + 1).last() == s[j]);
        lemma_acct_bytes_term_nonneg(s, j);
    }
}

proof fn lemma_acct_map_contains_exists(s: Seq<(AccountId, Projects)>, a: Seq<char>)
    requires
        acct_map(s).contains_key(a),
    ensures
        exists|i: int| 0 <= i < s.len() && s[i].0@ == a,
    decreases s.len(),
{
    if s.len() > 0 {
        if s.last().0@ == a {
            assert(s[s.len() - 1].0@ == a);
        } else {
            lemma_acct_map_contains_exists(s.drop_last(), a);
            let i = choose|i: int| 0 <= i < s.drop_last().len() && s.drop_last()[i].0@ == a;
            assert(s[i].0@ == a);
        }
    }
}

/// In every well-formed ledger the total supply equals the sum, over all
/// registered accounts and their registered projects, of the stored balances.
/// Every constructor and mutating operation of `OCCToken` establishes or
/// preserves well-formedness, so this holds of all reachable states.
pub proof fn lemma_total_supply_is_sum(t: &OCCToken)
    requires
        t.well_formed(),
    ensures
        t@.total_supply as int == t.spec_sum_of_balances(),
{
}

/// A consequence of the supply invariant: no single registered balance can
/// exceed the total supply.
pub proof fn lemma_balance_le_total_supply(t: &OCCToken, account: Seq<char>, project: ProjectId)
    requires
        t.well_formed(),
    ensures
        spec_balance_of(t@, account, project) <= t@.total_supply,
{
    if t@.accounts.contains_key(account) {
        lemma_acct_map_contains_exists(t.accounts@, account);
        let i = choose|i: int| 0 <= i < t.accounts@.len() && t.accounts@[i].0@ == account;
        lemma_acct_map_index(t.accounts@, i);
        if t@.accounts[account].contains_key(project) {
            let inner = t.accounts@[i].1;
            assert((#[trigger] t.accounts@[i]).1.wf());
            lemma_proj_map_contains_exists(inner.entries@, project);
            let j = choose|j: int| 0 <= j < inner.entries@.len() && inner.entries@[j].0 == project;
            lemma_proj_map_index(inner.entries@, j);
            lemma_proj_sum_element(inner.entries@, j);
            lemma_acct_sum_element(t.accounts@, i);
        }
    }
}

/// Registering the same account a second time always fails with
/// `AccountAlreadyRegistered`, whatever project either call names. By the
/// contract of `internal_register_account` a failed call leaves the ledger
/// exactly as it was, so the state after the failed repetition equals the
/// state after the first registration.
pub proof fn lemma_register_twice_fails(
    s: LedgerState,
    s1: LedgerState,
    account: Seq<char>,
    first_project: ProjectId,
    second_project: ProjectId,
)
    requires
        spec_register(s, account, first_project) == Ok::<LedgerState, LedgerError>(s1),
    ensures
        spec_register(s1, account, second_project) == Err::<LedgerState, LedgerError>(
            LedgerError::AccountAlreadyRegistered,
        ),
{
}

/// Two successive deposits to the same account and project amount to one
/// deposit of the combined amount: the combined amount fits, and the single
/// deposit reaches exactly the same state, balances and total supply alike.
pub proof fn lemma_deposit_additive(
    s: LedgerState,
    s1: LedgerState,
    s2: LedgerState,
    account: Seq<char>,
    project: ProjectId,
    x: Balance,
    y: Balance,
)
    requires
        spec_deposit(s, account, project, x) == Ok::<LedgerState, LedgerError>(s1),
        spec_deposit(s1, account, project, y) == Ok::<LedgerState, LedgerError>(s2),
    ensures
        x + y <= u128::MAX,
        spec_deposit(s, account, project, (x + y) as Balance) == Ok::<LedgerState, LedgerError>(
            s2,
        ),
{
    let b = s.accounts[account][project];
    assert(s1.accounts[account] == s.accounts[account].insert(project, (b + x) as Balance));
    assert(s1.accounts[account][project] == (b + x) as Balance);
    assert(s1.accounts[account].insert(project, ((b + x + y) as Balance)) =~= s.accounts[
        account
    ].insert(project, ((b + x + y) as Balance)));
    assert(s2.accounts =~= s.accounts.insert(
        account,
        s.accounts[account].insert(project, ((b + x + y) as Balance)),
    ));
}

/// A deposit whose checked addition would overflow is rejected with the
/// matching error kind. By the contract of `internal_deposit` every rejected
/// call leaves the ledger exactly as it was: neither the balance nor the
/// total supply moves.
pub proof fn lemma_deposit_overflow_rejected(
    s: LedgerState,
    account: Seq<char>,
    project: ProjectId,
    amount: Balance,
)
    requires
        s.accounts.contains_key(account),
        s.accounts[account].contains_key(project),
    ensures
        s.accounts[account][project] + amount > u128::MAX ==> spec_deposit(
            s,
            account,
            project,
            amount,
        ) == Err::<LedgerState, LedgerError>(LedgerError::BalanceOverflow),
        s.accounts[account][project] + amount <= u128::MAX && s.total_supply + amount > u128::MAX
            ==> spec_deposit(s, account, project, amount) == Err::<LedgerState, LedgerError>(
            LedgerError::SupplyOverflow,
        ),
{
}

/// Reading an unregistered account yields zero and never fails, while a
/// deposit on the same pair is rejected with `AccountNotRegistered`.
pub proof fn lemma_unregistered_account_reads_zero(
    s: LedgerState,
    account: Seq<char>,
    project: ProjectId,
    amount: Balance,
)
    requires
        !s.accounts.contains_key(account),
    ensures
        spec_balance_of(s, account, project) == 0,
        spec_deposit(s, account, project, amount) == Err::<LedgerState, LedgerError>(
            LedgerError::AccountNotRegistered,
        ),
{
}

} // verus!
