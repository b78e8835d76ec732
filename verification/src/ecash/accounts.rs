//! The online accounts behind token wallets.

use crate::ecash::identity::WalletId;
use vstd::prelude::*;

verus! {

/// What is known of an account.
#[derive(Clone, Copy, Debug, PartialEq, Eq)]
pub struct Account {
    pub balance_cents: u64,
    pub suspended: bool,
}

/// Accounts by identity.
#[derive(Debug)]
pub struct AccountTable {
    entries: Vec<(WalletId, Account)>,
}

impl View for AccountTable {
    type V = Map<Seq<u8>, Account>;

    closed spec fn view(&self) -> Map<Seq<u8>, Account> {
        Map::new(
            |identity: Seq<u8>| self.has(identity),
            |identity: Seq<u8>| self.entries@[self.place(identity)].1,
        )
    }
}

impl AccountTable {
    spec fn holds(&self, identity: Seq<u8>, i: int) -> bool {
        0 <= i < self.entries@.len() && self.entries@[i].0@ == identity
    }

    spec fn has(&self, identity: Seq<u8>) -> bool {
        exists|i: int| self.holds(identity, i)
    }

    spec fn place(&self, identity: Seq<u8>) -> int {
        choose|i: int| self.holds(identity, i)
    }

    /// No identity occurs twice.
    pub closed spec fn well_formed(&self) -> bool {
        forall|i: int, j: int|
            0 <= i < self.entries@.len() && 0 <= j < self.entries@.len()
                && #[trigger] self.entries@[i].0@ == #[trigger] self.entries@[j].0@ ==> i == j
    }

    pub fn new() -> (r: Self)
        ensures
            r@ == Map::<Seq<u8>, Account>::empty(),
            r.well_formed(),
    {
        let r = AccountTable { entries: Vec::new() };
        proof {
            assert(r@ =~= Map::<Seq<u8>, Account>::empty());
        }
        r
    }

    fn find(&self, identity: &WalletId) -> (r: Option<usize>)
        requires
            self.well_formed(),
        ensures
            r is Some <==> self@.contains_key(identity@),
            r matches Some(i) ==> self.holds(identity@, i as int) && self@[identity@]
                == self.entries@[i as int].1,
    {
        let mut i: usize = 0;
        while i < self.entries.len()
            invariant
                i <= self.entries@.len(),
                self.well_formed(),
                forall|j: int| 0 <= j < i ==> !self.holds(identity@, j),
            decreases self.entries.len() - i,
        {
            if self.entries[i].0.equals(identity) {
                proof {
                    assert(self.holds(identity@, i as int));
                    let k = self.place(identity@);
                    assert(self.holds(identity@, k));
                    assert(self.entries@[k].0@ == self.entries@[i as int].0@);
                }
                return Some(i);
            }
            i = i + 1;
        }
        None
    }

    /// What is known of the account of an identity.
    pub fn get(&self, identity: &WalletId) -> (r: Option<Account>)
        requires
            self.well_formed(),
        ensures
            r is Some <==> self@.contains_key(identity@),
            r matches Some(account) ==> account == self@[identity@],
    {
        match self.find(identity) {
            Some(i) => Some(self.entries[i].1),
            None => None,
        }
    }

    /// Records an account, in place of one that the identity has already.
    pub fn set(&mut self, identity: WalletId, account: Account)
        requires
            old(self).well_formed(),
        ensures
            final(self)@ == old(self)@.insert(identity@, account),
            final(self).well_formed(),
    {
        match self.find(&identity) {
            Some(i) => {
                self.entries[i] = (identity, account);
                proof {
                    self.lemma_replaced(*old(self), identity@, account, i as int);
                }
            },
            None => {
                self.entries.push((identity, account));
                proof {
                    self.lemma_appended(*old(self), identity@, account);
                }
            },
        }
    }

    proof fn lemma_replaced(
        &self,
        before: AccountTable,
        identity: Seq<u8>,
        account: Account,
        i: int,
    )
        requires
            before.well_formed(),
            before.holds(identity, i),
            self.entries@.len() == before.entries@.len(),
            self.holds(identity, i),
            self.entries@[i].1 == account,
            forall|j: int|
                0 <= j < before.entries@.len() && j != i ==> self.entries@[j]
                    == before.entries@[j],
        ensures
            self@ == before@.insert(identity, account),
            self.well_formed(),
    {
        assert forall|j: int| 0 <= j < self.entries@.len() implies (
        #[trigger] self.entries@[j]).0@ == before.entries@[j].0@ by {}
        assert(self.well_formed());
        assert forall|other: Seq<u8>| self.has(other) == before@.insert(
            identity,
            account,
        ).contains_key(other) by {
            if self.has(other) {
                assert(before.holds(other, self.place(other)));
            }
            if before.has(other) {
                assert(self.holds(other, before.place(other)));
            }
        }
        assert forall|other: Seq<u8>| self.has(other) implies #[trigger] self@[other]
            == before@.insert(identity, account)[other] by {
            let k = self.place(other);
            assert(self.holds(other, k));
            assert(before.holds(other, k));
            assert(before.holds(other, before.place(other)));
            assert(before.entries@[k].0@ == before.entries@[before.place(other)].0@);
            if other == identity {
                assert(self.entries@[k].0@ == self.entries@[i].0@);
            }
        }
        assert(self@ =~= before@.insert(identity, account));
    }

    proof fn lemma_appended(&self, before: AccountTable, identity: Seq<u8>, account: Account)
        requires
            before.well_formed(),
            !before.has(identity),
            self.entries@.len() == before.entries@.len() + 1,
            self.entries@.last().0@ == identity,
            self.entries@.last().1 == account,
            forall|j: int| 0 <= j < before.entries@.len() ==> self.entries@[j] == before.entries@[j],
        ensures
            self@ == before@.insert(identity, account),
            self.well_formed(),
    {
        let n = before.entries@.len() as int;
        assert forall|j: int| 0 <= j < n implies (#[trigger] self.entries@[j]).0@ != identity by {
            if self.entries@[j].0@ == identity {
                assert(before.holds(identity, j));
            }
        }
        assert(self.well_formed());
        assert(self.holds(identity, n));
        assert forall|other: Seq<u8>| self.has(other) == before@.insert(
            identity,
            account,
        ).contains_key(other) by {
            if self.has(other) && other != identity {
                assert(before.holds(other, self.place(other)));
            }
            if before.has(other) {
                assert(self.holds(other, before.place(other)));
            }
        }
        assert forall|other: Seq<u8>| self.has(other) implies #[trigger] self@[other]
            == before@.insert(identity, account)[other] by {
            let k = self.place(other);
            assert(self.holds(other, k));
            if other != identity {
                assert(before.holds(other, k));
                assert(before.holds(other, before.place(other)));
                assert(before.entries@[k].0@ == before.entries@[before.place(other)].0@);
            } else {
                assert(self.entries@[k].0@ == self.entries@[n].0@);
            }
        }
        assert(self@ =~= before@.insert(identity, account));
    }
}

} // verus!
