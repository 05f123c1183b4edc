//! KRPC messages, as the crawler reads them.
use vstd::prelude::*;

verus! {

/// A KRPC message: transaction id, type (`q`, `r` or `e`), query name,
/// query arguments and response fields.
#[derive(Debug)]
pub struct DhtMessage {
    pub t: Vec<u8>,
    pub y: String,
    pub q: Option<String>,
    pub a: Option<DhtArgs>,
    pub r: Option<DhtResponse>,
}

/// The arguments of a query.
#[derive(Debug)]
pub struct DhtArgs {
    pub id: Option<Vec<u8>>,
    pub target: Option<Vec<u8>>,
    pub info_hash: Option<Vec<u8>>,
    pub token: Option<Vec<u8>>,
    pub port: Option<u16>,
    pub implied_port: Option<u8>,
}

/// The fields of a response that the crawler reads.
#[derive(Debug)]
pub struct DhtResponse {
    pub id: Option<Vec<u8>>,
    pub nodes: Option<Vec<u8>>,
    pub nodes6: Option<Vec<u8>>,
}

} // verus!
