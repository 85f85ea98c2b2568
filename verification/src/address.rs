//! Orchard diversified payment addresses and their Kaspa text form.

use kaspa_addresses::{Address, Prefix, Version};
use orchard::keys::{FullViewingKey, Scope};
use vstd::prelude::*;

verus! {

/// The network an address is written for.
#[derive(Clone, Copy, Debug, PartialEq, Eq, Structural)]
pub enum AddressPrefix {
    Mainnet,
    Testnet,
    Simnet,
    Devnet,
}

/// Whether `orchard::keys::FullViewingKey::from_bytes` accepts these 96 bytes.
pub uninterp spec fn orchard_viewing_key_valid(bytes: Seq<u8>) -> bool;

/// The raw 43-byte Orchard payment address that the full viewing key
/// `viewing_key` gives at diversifier index `index` in the external scope.
pub uninterp spec fn orchard_raw_address(viewing_key: Seq<u8>, index: u32) -> Seq<u8>;

/// The text form of a Kaspa address carrying `payload` on network `prefix`.
pub uninterp spec fn kaspa_address_text(prefix: AddressPrefix, payload: Seq<u8>) -> Seq<char>;

/// The payload that parsing `text` as a Kaspa address yields, if it parses.
pub uninterp spec fn kaspa_address_payload(text: Seq<char>) -> Option<Seq<u8>>;

/// Calls `FullViewingKey::from_bytes` and reports whether it accepted the
/// bytes; the contract only names that answer.
#[verifier::external_body]
pub(crate) fn viewing_key_is_valid(bytes: &[u8; 96]) -> (r: bool)
    ensures
        r == orchard_viewing_key_valid(bytes@),
{
    FullViewingKey::from_bytes(bytes).is_some()
}

/// Calls `FullViewingKey::from_bytes`, then `address_at(index, Scope::External)`
/// and `to_raw_address_bytes`; the contract names the 43 bytes that come back
/// as a function of the key bytes and the index. The raw address begins with
/// the diversifier, which `DiversifierKey::get` computes from the index with
/// an FF1 permutation, so every other index gives other bytes (of the same
/// length).
#[verifier::external_body]
pub(crate) fn diversified_address(viewing_key: &[u8; 96], index: u32) -> (r: [u8; 43])
    requires
        orchard_viewing_key_valid(viewing_key@),
    ensures
        r@ == orchard_raw_address(viewing_key@, index),
        forall|j: u32|
            j != index ==> #[trigger] orchard_raw_address(viewing_key@, j) != r@
                && orchard_raw_address(viewing_key@, j).len() == r@.len(),
{
    FullViewingKey::from_bytes(viewing_key).unwrap().address_at(index, Scope::External).to_raw_address_bytes()
}

/// Writes `payload` as a Kaspa address (`String::from(&Address)`) for the
/// network `prefix`; the contract names the text as a function of both.
/// The text is the prefix, a colon, the bech32 characters of the version
/// byte and the payload (a one-to-one 8-to-5-bit conversion) and a
/// checksum, so another payload of the same length gives another text.
/// The registry release of `kaspa-addresses` has no shielded address
/// version, so the payload is written under `Version::PubKey`; nothing is
/// claimed about parsing that text back.
#[verifier::external_body]
pub(crate) fn encode_address(prefix: AddressPrefix, payload: &[u8; 43]) -> (r: String)
    ensures
        r@ == kaspa_address_text(prefix, payload@),
        forall|other: Seq<u8>|
            other.len() == payload@.len() && other != payload@ ==> #[trigger] kaspa_address_text(
                prefix,
                other,
            ) != r@,
{
    let prefix = match prefix {
        AddressPrefix::Mainnet => Prefix::Mainnet,
        AddressPrefix::Testnet => Prefix::Testnet,
        AddressPrefix::Simnet => Prefix::Simnet,
        AddressPrefix::Devnet => Prefix::Devnet,
    };
    let address = Address { prefix, version: Version::PubKey, payload: payload.as_slice().into() };
    String::from(&address)
}

/// Parses `text` with `Address::try_from` and hands back its payload when it
/// is exactly 43 bytes long; the contract names the parsed payload.
#[verifier::external_body]
pub(crate) fn decode_address(text: &str) -> (r: Option<[u8; 43]>)
    ensures
        match r {
            Some(raw) => kaspa_address_payload(text@) == Some(raw@),
            None => match kaspa_address_payload(text@) {
                Some(p) => p.len() != 43,
                None => true,
            },
        },
{
    match Address::try_from(text) {
        Ok(address) => <[u8; 43]>::try_from(address.payload.as_slice()).ok(),
        Err(_) => None,
    }
}

} // verus!
