//! The commands, queries and answers that the command handler accepts.

use vstd::prelude::*;

verus! {

/// Payload of the initialize command: the starting counter value.
#[derive(Clone, Debug, PartialEq)]
pub struct InstantiateMsg {
    pub count: i32,
}

/// The two commands that mutate the counter.
#[derive(Clone, Debug, PartialEq)]
pub enum ExecuteMsg {
    /// Add one to the counter; any caller may do this.
    Increment {},
    /// Set the counter to `count`; only the owner may do this.
    Reset { count: i32 },
}

/// The three read-only queries.
#[derive(Clone, Debug, PartialEq)]
pub enum QueryMsg {
    /// Read the current counter value.
    GetCount {},
    /// Encode a 32-byte value under a tag into a checksummed address.
    ToBech32 { prefix: String, bytes: [u8; 32] },
    /// Decode a checksummed address back into its tag and 32 bytes.
    FromBech32 { bech32: String },
}

/// Answer to `GetCount`.
#[derive(Clone, Debug, PartialEq)]
pub struct CountResponse {
    pub count: i32,
}

/// Answer to `ToBech32`.
#[derive(Clone, Debug, PartialEq)]
pub struct Bech32AddrResponse {
    pub bech32_addr: String,
}

/// Answer to `FromBech32`.
#[derive(Clone, Debug, PartialEq)]
pub struct BytesAddrResponse {
    pub prefix: String,
    pub bytes: [u8; 32],
}

} // verus!
