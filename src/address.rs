//! Choosing the account address to query on each chain.

use vstd::prelude::*;
use bech32_addr_converter::converter::any_addr_to_prefix_addr;

verus! {

/// What re-encoding the bech32 address `addr` under `prefix` gives; `None`
/// when `addr` is not a valid bech32 address or `prefix` is not a valid
/// human-readable part.
pub uninterp spec fn prefixed_address(addr: Seq<char>, prefix: Seq<char>) -> Option<Seq<char>>;

/// Relies on `bech32_addr_converter::converter::any_addr_to_prefix_addr`:
/// it decodes `addr` and encodes its data under `prefix`, failing when either
/// step fails; the outcome depends on the two strings alone.
#[verifier::external_body]
fn convert_address(addr: String, prefix: &str) -> (r: Option<String>)
    ensures
        match r {
            Some(a) => prefixed_address(addr@, prefix@) == Some(a@),
            None => prefixed_address(addr@, prefix@) is None,
        },
{
    any_addr_to_prefix_addr(addr, prefix).ok()
}

/// An address that cannot be re-encoded for a chain.
#[derive(Clone, Copy, Debug, PartialEq, Eq, Structural)]
pub enum AddressError {
    InvalidAddress,
}

/// The address to query on a chain whose account prefix is `chain_prefix`.
/// On the source chain (same prefix) it is `source` itself. Elsewhere it is
/// `entered` re-encoded under the chain's prefix, or `source` re-encoded when
/// nothing was entered.
pub fn chain_address(source: &String, source_prefix: &String, chain_prefix: &String, entered: &String) -> (r: Result<String, AddressError>)
    ensures
        chain_prefix@ == source_prefix@ ==> r is Ok && r.unwrap()@ == source@,
        chain_prefix@ != source_prefix@ ==> {
            let a = if entered@.len() == 0 {
                source@
            } else {
                entered@
            };
            match prefixed_address(a, chain_prefix@) {
                Some(x) => r is Ok && r.unwrap()@ == x,
                None => r == Err::<String, AddressError>(AddressError::InvalidAddress),
            }
        },
{
    if *chain_prefix == *source_prefix {
        return Ok(source.clone());
    }
    let a = if entered.as_str().unicode_len() == 0 {
        source.clone()
    } else {
        entered.clone()
    };
    match convert_address(a, chain_prefix.as_str()) {
        Some(x) => Ok(x),
        None => Err(AddressError::InvalidAddress),
    }
}

} // verus!
