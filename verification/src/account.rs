use vstd::prelude::*;

verus! {

/// Greatest number of characters an account identifier may hold.
pub const MAX_ACCOUNT_ID_LEN: usize = 64;

/// An opaque, externally validated account identifier: a non-empty string of
/// at most `MAX_ACCOUNT_ID_LEN` characters. It has no lifecycle of its own and
/// exists only as a key into the ledger.
#[derive(Debug)]
pub struct AccountId {
    id: String,
}

impl View for AccountId {
    type V = Seq<char>;

    closed spec fn view(&self) -> Seq<char> {
        self.id@
    }
}

impl AccountId {
    /// The length bound every `AccountId` carries by construction.
    pub open spec fn spec_len_ok(id: Seq<char>) -> bool {
        1 <= id.len() <= MAX_ACCOUNT_ID_LEN
    }

    #[verifier::type_invariant]
    spec fn len_invariant(&self) -> bool {
        Self::spec_len_ok(self.id@)
    }

    /// Wraps a string as an account identifier, rejecting one whose length is
    /// out of bounds.
    pub fn new(id: String) -> (r: Option<AccountId>)
        ensures
            match r {
                Some(a) => a@ == id@ && Self::spec_len_ok(id@),
                None => !Self::spec_len_ok(id@),
            },
    {
        let n = id.as_str().unicode_len();
        if 1 <= n && n <= MAX_ACCOUNT_ID_LEN {
            Some(AccountId { id })
        } else {
            None
        }
    }

    /// The number of characters in the identifier.
    pub fn char_len(&self) -> (n: usize)
        ensures
            n == self@.len(),
    {
        self.id.as_str().unicode_len()
    }

}

impl Clone for AccountId {
    fn clone(&self) -> (r: Self)
        ensures
            r == *self,
    {
        proof {
            use_type_invariant(self);
        }
        AccountId { id: self.id.clone() }
    }
}

impl PartialEq for AccountId {
    fn eq(&self, other: &Self) -> (r: bool) {
        self.id == other.id
    }
}

impl vstd::std_specs::cmp::PartialEqSpecImpl for AccountId {
    open spec fn obeys_eq_spec() -> bool {
        true
    }

    open spec fn eq_spec(&self, other: &Self) -> bool {
        self@ == other@
    }
}

} // verus!
