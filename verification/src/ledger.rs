//! The storage that the record stores share: one account per address, each
//! with the tag of the module that owns it and a payload of bytes, and a
//! clock that never runs backwards.

use crate::address::{Address, AddressView};
use crate::identity::Identity;
use vstd::prelude::*;

verus! {

/// What an account holds.
pub struct AccountView {
    pub owner: Seq<u8>,
    pub data: Seq<u8>,
}

/// The record kept at one address: the tag of the module that owns it, and
/// its payload.
#[derive(Debug, PartialEq, Eq)]
pub struct Account {
    pub owner: Identity,
    pub data: Vec<u8>,
}

impl View for Account {
    type V = AccountView;

    open spec fn view(&self) -> AccountView {
        AccountView { owner: self.owner@, data: self.data@ }
    }
}

/// The state of a ledger: the accounts by address, and the ledger time.
pub struct LedgerView {
    pub accounts: Map<AddressView, AccountView>,
    pub now: i64,
}

impl LedgerView {
    /// Whether an account is kept at `address`.
    pub open spec fn occupied(self, address: AddressView) -> bool {
        self.accounts.dom().contains(address)
    }

    /// The ledger with the account at `address` created or replaced.
    pub open spec fn with_account(self, address: AddressView, owner: Seq<u8>, data: Seq<u8>)
        -> LedgerView {
        LedgerView {
            accounts: self.accounts.insert(address, AccountView { owner, data }),
            now: self.now,
        }
    }

    /// The ledger at the later of its time and `unix_timestamp`.
    pub open spec fn at_time(self, unix_timestamp: i64) -> LedgerView {
        LedgerView {
            accounts: self.accounts,
            now: if unix_timestamp > self.now {
                unix_timestamp
            } else {
                self.now
            },
        }
    }
}

struct Entry {
    address: Address,
    account: Account,
}

/// Owner-tagged storage with one account per address, and the ledger clock.
pub struct Ledger {
    entries: Vec<Entry>,
    clock: i64,
}

spec fn distinct_addresses(entries: Seq<Entry>) -> bool {
    forall|i: int, j: int|
        0 <= i < entries.len() && 0 <= j < entries.len() && (#[trigger] entries[i]).address@ == (
        #[trigger] entries[j]).address@ ==> i == j
}

spec fn accounts_of(entries: Seq<Entry>) -> Map<AddressView, AccountView>
    decreases entries.len(),
{
    if entries.len() == 0 {
        Map::empty()
    } else {
        accounts_of(entries.drop_last()).insert(entries.last().address@, entries.last().account@)
    }
}

proof fn lemma_accounts_of(entries: Seq<Entry>)
    ensures
        forall|a: AddressView| #[trigger]
            accounts_of(entries).dom().contains(a) <==> exists|i: int|
                0 <= i < entries.len() && (#[trigger] entries[i]).address@ == a,
        distinct_addresses(entries) ==> forall|i: int|
            0 <= i < entries.len() ==> accounts_of(entries)[(#[trigger] entries[i]).address@]
                == entries[i].account@,
    decreases entries.len(),
{
    if entries.len() > 0 {
        let front = entries.drop_last();
        let last = entries.last();
        lemma_accounts_of(front);
        assert forall|a: AddressView| #[trigger]
            accounts_of(entries).dom().contains(a) <==> exists|i: int|
                0 <= i < entries.len() && (#[trigger] entries[i]).address@ == a by {
            if accounts_of(entries).dom().contains(a) {
                if a == last.address@ {
                    assert(entries[entries.len() - 1].address@ == a);
                } else {
                    assert(accounts_of(front).dom().contains(a));
                    let i = choose|i: int|
                        0 <= i < front.len() && (#[trigger] front[i]).address@ == a;
                    assert(entries[i].address@ == a);
                }
            }
            if exists|i: int| 0 <= i < entries.len() && (#[trigger] entries[i]).address@ == a {
                let i = choose|i: int|
                    0 <= i < entries.len() && (#[trigger] entries[i]).address@ == a;
                if i < front.len() {
                    assert(front[i].address@ == a);
                    assert(accounts_of(front).dom().contains(a));
                }
            }
        }
        if distinct_addresses(entries) {
            assert(distinct_addresses(front)) by {
                assert forall|i: int, j: int|
                    0 <= i < front.len() && 0 <= j < front.len() && (#[trigger] front[i]).address@
                        == (#[trigger] front[j]).address@ implies i == j by {
                    assert(entries[i].address@ == entries[j].address@);
                }
            }
            assert forall|i: int| 0 <= i < entries.len() implies accounts_of(entries)[(
            #[trigger] entries[i]).address@] == entries[i].account@ by {
                if i < front.len() {
                    assert(front[i] == entries[i]);
                    assert(entries[i].address@ != entries[entries.len() - 1].address@);
                }
            }
        }
    }
}

impl View for Ledger {
    type V = LedgerView;

    closed spec fn view(&self) -> LedgerView {
        LedgerView { accounts: accounts_of(self.entries@), now: self.clock }
    }
}

impl Ledger {
    #[verifier::type_invariant]
    spec fn well_formed(self) -> bool {
        distinct_addresses(self.entries@)
    }

    /// An empty ledger whose clock shows `unix_timestamp`.
    pub fn new(unix_timestamp: i64) -> (ledger: Ledger)
        ensures
            ledger@.accounts == Map::<AddressView, AccountView>::empty(),
            ledger@.now == unix_timestamp,
    {
        Ledger { entries: Vec::new(), clock: unix_timestamp }
    }

    /// The ledger time.
    pub fn unix_timestamp(&self) -> (now: i64)
        ensures
            now == self@.now,
    {
        self.clock
    }

    /// Moves the clock forward to `unix_timestamp`. The clock never runs
    /// backwards: an earlier time leaves it as it is.
    pub fn advance_clock(&mut self, unix_timestamp: i64)
        ensures
            final(self)@ == old(self)@.at_time(unix_timestamp),
    {
        proof {
            use_type_invariant(&*self);
        }
        if unix_timestamp > self.clock {
            self.clock = unix_timestamp;
        }
    }

    fn find(&self, address: &Address) -> (found: Option<usize>)
        ensures
            match found {
                Some(i) => i < self.entries.len() && self.entries[i as int].address@ == address@,
                None => !self@.occupied(address@),
            },
    {
        let mut i: usize = 0;
        while i < self.entries.len()
            invariant
                i <= self.entries.len(),
                forall|j: int| 0 <= j < i ==> (#[trigger] self.entries[j]).address@ != address@,
            decreases self.entries.len() - i,
        {
            if self.entries[i].address.matches(address) {
                return Some(i);
            }
            i = i + 1;
        }
        proof {
            lemma_accounts_of(self.entries@);
        }
        None
    }

    /// Whether an account is kept at `address`.
    pub fn is_occupied(&self, address: &Address) -> (occupied: bool)
        ensures
            occupied == self@.occupied(address@),
    {
        match self.find(address) {
            Some(i) => {
                proof {
                    lemma_accounts_of(self.entries@);
                }
                true
            },
            None => false,
        }
    }

    /// The account kept at `address`, if there is one.
    pub fn get(&self, address: &Address) -> (account: Option<&Account>)
        ensures
            match account {
                Some(found) => self@.occupied(address@) && found@ == self@.accounts[address@],
                None => !self@.occupied(address@),
            },
    {
        match self.find(address) {
            Some(i) => {
                proof {
                    use_type_invariant(self);
                    lemma_accounts_of(self.entries@);
                }
                Some(&self.entries[i].account)
            },
            None => None,
        }
    }

    /// Creates the account at `address` with the owner tag `owner` and the
    /// payload `data`, unless the address is occupied: then nothing changes.
    pub fn create(&mut self, address: Address, owner: Identity, data: Vec<u8>) -> (created: bool)
        ensures
            created == !old(self)@.occupied(address@),
            final(self)@ == if created {
                old(self)@.with_account(address@, owner@, data@)
            } else {
                old(self)@
            },
    {
        match self.find(&address) {
            Some(_) => {
                proof {
                    lemma_accounts_of(self.entries@);
                }
                false
            },
            None => {
                proof {
                    use_type_invariant(&*self);
                    lemma_accounts_of(self.entries@);
                }
                let ghost before = self.entries@;
                let entry = Entry { address, account: Account { owner, data } };
                let mut entries: Vec<Entry> = Vec::new();
                core::mem::swap(&mut self.entries, &mut entries);
                entries.push(entry);
                self.entries = entries;
                proof {
                    assert(self.entries@.drop_last() =~= before);
                    assert forall|i: int, j: int|
                        0 <= i < self.entries@.len() && 0 <= j < self.entries@.len() && (
                        #[trigger] self.entries@[i]).address@ == (
                        #[trigger] self.entries@[j]).address@ implies i == j by {
                        if i < before.len() {
                            assert(before[i].address@ == self.entries@[i].address@);
                        }
                        if j < before.len() {
                            assert(before[j].address@ == self.entries@[j].address@);
                        }
                    }
                }
                true
            },
        }
    }

    /// Replaces the payload of the account at `address` by `data`, if there
    /// is an account and `writer` owns it: otherwise nothing changes.
    pub fn write(&mut self, address: &Address, writer: &Identity, data: Vec<u8>) -> (written: bool)
        ensures
            written == (old(self)@.occupied(address@) && old(self)@.accounts[address@].owner
                == writer@),
            final(self)@ == if written {
                old(self)@.with_account(address@, writer@, data@)
            } else {
                old(self)@
            },
    {
        proof {
            use_type_invariant(&*self);
            lemma_accounts_of(self.entries@);
        }
        match self.find(address) {
            None => false,
            Some(i) => {
                if !self.entries[i].account.owner.matches(writer) {
                    return false;
                }
                let ghost before = self.entries@;
                let account = Account { owner: *writer, data };
                let entry = Entry { address: address.clone(), account };
                let mut entries: Vec<Entry> = Vec::new();
                core::mem::swap(&mut self.entries, &mut entries);
                entries.set(i, entry);
                proof {
                    let after = entries@;
                    assert forall|j: int| 0 <= j < after.len() implies (#[trigger] after[j]).address@
                        == before[j].address@ by {}
                    assert(distinct_addresses(after)) by {
                        assert forall|j: int, k: int|
                            0 <= j < after.len() && 0 <= k < after.len() && (
                            #[trigger] after[j]).address@ == (#[trigger] after[k]).address@ implies j
                            == k by {
                            assert(before[j].address@ == before[k].address@);
                        }
                    }
                    lemma_accounts_of(after);
                    let target = accounts_of(before).insert(address@, account@);
                    assert forall|a: AddressView| #[trigger]
                        accounts_of(after).dom().contains(a) <==> target.dom().contains(a) by {
                        if accounts_of(after).dom().contains(a) {
                            let j = choose|j: int|
                                0 <= j < after.len() && (#[trigger] after[j]).address@ == a;
                            assert(before[j].address@ == a);
                        }
                        if target.dom().contains(a) {
                            if a == address@ {
                                assert(after[i as int].address@ == a);
                            } else {
                                let j = choose|j: int|
                                    0 <= j < before.len() && (#[trigger] before[j]).address@ == a;
                                assert(after[j].address@ == a);
                            }
                        }
                    }
                    assert forall|a: AddressView| #[trigger]
                        accounts_of(after).dom().contains(a) implies accounts_of(after)[a]
                        == target[a] by {
                        let j = choose|j: int|
                            0 <= j < after.len() && (#[trigger] after[j]).address@ == a;
                        assert(accounts_of(after)[after[j].address@] == after[j].account@);
                        if j != i {
                            assert(before[j].address@ == a);
                            assert(accounts_of(before)[before[j].address@] == before[j].account@);
                            assert(after[j] == before[j]);
                        }
                    }
                    assert(accounts_of(after) =~= target);
                }
                self.entries = entries;
                true
            },
        }
    }
}

} // verus!
