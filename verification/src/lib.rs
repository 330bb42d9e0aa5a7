//! A cross-registry verification ledger.
//!
//! Three record stores share one owner-tagged, address-indexed storage.
//! A store derives the location of a record from the record's key, and a
//! store that refers to a record of another store first checks that the
//! record exists, carries the other store's owner tag and holds the key it
//! was asked for.

pub mod address;
pub mod identity;
pub mod investment_ledger;
pub mod ledger;
pub mod startup_registry;
pub mod verification;
pub mod wire;
