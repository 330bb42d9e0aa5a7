//! Deterministic addressing: the storage location of a record is a function
//! of its namespace, its key and the identity of the module that owns it.

use crate::identity::Identity;
use anchor_lang::prelude::Pubkey;
use vstd::prelude::*;

verus! {

/// Namespace of the records that the Startup Registry owns.
pub const STARTUP_NAMESPACE: &'static str = "startup";

/// Namespace of the records that the Investment Ledger owns.
pub const INVESTMENT_NAMESPACE: &'static str = "investment";

/// Namespace of the records that the Certificate Registry owns.
pub const CERTIFICATE_NAMESPACE: &'static str = "certificate";

/// What an address is made of.
pub struct AddressView {
    pub namespace: Seq<char>,
    pub key: Seq<char>,
    pub owner: Seq<u8>,
}

/// The storage location of one record.
#[derive(Debug, PartialEq, Eq)]
pub struct Address {
    namespace: String,
    key: String,
    owner: Identity,
}

impl View for Address {
    type V = AddressView;

    closed spec fn view(&self) -> AddressView {
        AddressView { namespace: self.namespace@, key: self.key@, owner: self.owner@ }
    }
}

impl Clone for Address {
    fn clone(&self) -> (copy: Address)
        ensures
            copy@ == self@,
    {
        Address { namespace: self.namespace.clone(), key: self.key.clone(), owner: self.owner }
    }
}

/// The address derived from a namespace, a key and the identity of the
/// owning module.
pub open spec fn derived(namespace: Seq<char>, key: Seq<char>, owner: Seq<u8>) -> AddressView {
    AddressView { namespace, key, owner }
}

/// Derives the storage location of the record with the given key in the
/// given namespace of the module `owner`. The same arguments always give the
/// same address.
pub fn derive_address(namespace: &str, key: &str, owner: &Identity) -> (address: Address)
    ensures
        address@ == derived(namespace@, key@, owner@),
{
    Address { namespace: namespace.to_owned(), key: key.to_owned(), owner: *owner }
}

/// Distinct namespaces, keys or owners never share an address: an address
/// determines all three.
pub proof fn lemma_derived_is_injective(
    namespace1: Seq<char>,
    key1: Seq<char>,
    owner1: Seq<u8>,
    namespace2: Seq<char>,
    key2: Seq<char>,
    owner2: Seq<u8>,
)
    ensures
        derived(namespace1, key1, owner1) == derived(namespace2, key2, owner2) <==> (namespace1
            == namespace2 && key1 == key2 && owner1 == owner2),
{
}

/// The three namespaces are three different strings, so that records of
/// different kinds never share an address.
pub proof fn lemma_namespaces_differ()
    ensures
        STARTUP_NAMESPACE@ != INVESTMENT_NAMESPACE@,
        STARTUP_NAMESPACE@ != CERTIFICATE_NAMESPACE@,
        INVESTMENT_NAMESPACE@ != CERTIFICATE_NAMESPACE@,
{
    reveal_strlit("startup");
    reveal_strlit("investment");
    reveal_strlit("certificate");
    assert(STARTUP_NAMESPACE@.len() == 7);
    assert(INVESTMENT_NAMESPACE@.len() == 10);
    assert(CERTIFICATE_NAMESPACE@.len() == 11);
}

impl Address {
    /// The namespace that the address was derived from.
    pub fn namespace(&self) -> (namespace: &str)
        ensures
            namespace@ == self@.namespace,
    {
        self.namespace.as_str()
    }

    /// The key that the address was derived from.
    pub fn key(&self) -> (key: &str)
        ensures
            key@ == self@.key,
    {
        self.key.as_str()
    }

    /// The module that the address was derived for.
    pub fn owner(&self) -> (owner: Identity)
        ensures
            owner@ == self@.owner,
    {
        self.owner
    }

    /// Whether two addresses are the same location.
    pub fn matches(&self, other: &Address) -> (same: bool)
        ensures
            same == (self@ == other@),
    {
        self.owner.matches(&other.owner) && self.namespace == other.namespace && self.key
            == other.key
    }

    /// The account key under which a host ledger keeps the record of this
    /// address, with the bump seed that the host found for it, if the host
    /// can place the address.
    pub fn program_address(&self) -> (found: Option<(Identity, u8)>)
        ensures
            host_placement(self@) == match found {
                Some((location, bump)) => Some((location@, bump)),
                None => None,
            },
    {
        let namespace = self.namespace.as_str().as_bytes();
        let key = self.key.as_str().as_bytes();
        find_program_address(namespace, key, &self.owner)
    }

    /// Whether `account_key` is the account key under which a host ledger
    /// keeps the record of this address.
    pub fn is_located_at(&self, account_key: &Identity) -> (located: bool)
        ensures
            located == (host_location(self@) == Some(account_key@)),
    {
        is_placed_at(&self.program_address(), account_key)
    }
}

/// Whether the host, which found `found` for an address, keeps the record
/// of that address under `account_key`: it found a placement, and the
/// account key of the placement is `account_key`.
pub fn is_placed_at(found: &Option<(Identity, u8)>, account_key: &Identity) -> (placed: bool)
    ensures
        placed == (found matches Some((location, _)) && location@ == account_key@),
{
    match found {
        Some((location, _)) => location.matches(account_key),
        None => false,
    }
}

/// The account key and bump seed that a host ledger finds for an address:
/// the program address of the UTF-8 bytes of namespace and key under the
/// owning module.
pub open spec fn host_placement(address: AddressView) -> Option<(Seq<u8>, u8)> {
    program_address_of(
        vstd::utf8::encode_utf8(address.namespace),
        vstd::utf8::encode_utf8(address.key),
        address.owner,
    )
}

/// The account key under which a host ledger keeps the record of an
/// address.
pub open spec fn host_location(address: AddressView) -> Option<Seq<u8>> {
    match host_placement(address) {
        Some((location, _)) => Some(location),
        None => None,
    }
}

/// The program address and bump seed that the host ledger's derivation finds
/// for the two seeds `namespace` and `key` under the program `program`.
pub uninterp spec fn program_address_of(namespace: Seq<u8>, key: Seq<u8>, program: Seq<u8>) -> Option<(Seq<u8>, u8)>;

/// Calls `Pubkey::try_find_program_address` of `anchor_lang` with the two
/// seeds `namespace` and `key`. Believed without proof: what the call
/// returns, address and bump seed or nothing, depends on the seeds and the
/// program alone, so that it is what `program_address_of` names.
#[verifier::external_body]
fn find_program_address(namespace: &[u8], key: &[u8], program: &Identity) -> (found: Option<
    (Identity, u8),
>)
    ensures
        program_address_of(namespace@, key@, program@) == match found {
            Some((location, bump)) => Some((location@, bump)),
            None => None,
        },
{
    match Pubkey::try_find_program_address(
        &[namespace, key],
        &Pubkey::new_from_array(program.bytes),
    ) {
        Some((address, bump)) => Some((Identity { bytes: address.to_bytes() }, bump)),
        None => None,
    }
}

} // verus!
