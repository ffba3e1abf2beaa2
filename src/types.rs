//! Records returned by a chain's query endpoint.

use vstd::prelude::*;

verus! {

/// One asset held on one chain: its denomination and its amount in decimal.
#[derive(Clone, Debug)]
pub struct Balance {
    pub denom: String,
    pub amount: String,
}

/// Paging metadata of a balance listing.
#[derive(Clone, Debug)]
pub struct Pagination {
    pub next_key: Option<String>,
    pub total: String,
}

/// A page of balances held by one account.
#[derive(Clone, Debug)]
pub struct BalancesResponse {
    pub balances: Vec<Balance>,
    pub pagination: Pagination,
}

/// The answer to a denomination-trace query.
#[derive(Clone, Debug)]
pub struct DenomTraceResponse {
    pub denom_trace: DenomTrace,
}

/// The transfer history of a wrapped denomination and the denomination it
/// had on its chain of origin.
#[derive(Clone, Debug)]
pub struct DenomTrace {
    pub path: String,
    pub base_denom: String,
}

} // verus!
