//! Cross-module verification: before a module trusts a record that another
//! module owns, it checks that the record is there, that it carries the
//! other module's owner tag, and that its payload is more than a header.

use crate::address::{Address, AddressView};
use crate::identity::Identity;
use crate::ledger::{Account, Ledger, LedgerView};
use crate::wire::HEADER_LEN;
use vstd::prelude::*;

verus! {

/// The error of a failed verification: the record is missing, carries
/// another owner's tag, or is empty.
#[derive(Clone, Copy, Debug, PartialEq, Eq)]
pub struct InvalidRecord;

/// Whether the ledger holds, at `address`, an account that `expected_owner`
/// owns and whose payload is longer than a record header.
pub open spec fn verified(ledger: LedgerView, address: AddressView, expected_owner: Seq<u8>)
    -> bool {
    &&& ledger.occupied(address)
    &&& ledger.accounts[address].owner == expected_owner
    &&& ledger.accounts[address].data.len() > HEADER_LEN
}

/// Verifies the record at `address` and gives the account that holds it.
/// The fields of the payload are the caller's to read and to compare with
/// the key that it was asked for.
pub fn verify<'a>(ledger: &'a Ledger, address: &Address, expected_owner: &Identity) -> (outcome:
    Result<&'a Account, InvalidRecord>)
    ensures
        match outcome {
            Ok(account) => verified(ledger@, address@, expected_owner@) && account@
                == ledger@.accounts[address@],
            Err(_) => !verified(ledger@, address@, expected_owner@),
        },
{
    match ledger.get(address) {
        None => Err(InvalidRecord),
        Some(account) => {
            if !account.owner.matches(expected_owner) {
                Err(InvalidRecord)
            } else if account.data.len() <= HEADER_LEN {
                Err(InvalidRecord)
            } else {
                Ok(account)
            }
        },
    }
}

} // verus!
