//! The command handler: pure dispatch over the counter and the codec.
//!
//! Every function here is a pure transform from the current state and a
//! message to a result; the host that wraps the library loads the state
//! before a call and persists what comes back.

use vstd::prelude::*;

use crate::codec::{
    decode, decode_spec, encode, encoded, valid_tag, DecodingError, EncodingError,
};
use crate::msg::{
    Bech32AddrResponse, BytesAddrResponse, CountResponse, ExecuteMsg, InstantiateMsg, QueryMsg,
};
use crate::state::State;

verus! {

/// A command is rejected: the caller is not the owner.
#[derive(Clone, Copy, Debug, PartialEq, Eq, Structural)]
pub enum ContractError {
    Unauthorized {},
}

/// The answer a query returns, one variant per query.
#[derive(Clone, Debug, PartialEq)]
pub enum QueryAnswer {
    Count(CountResponse),
    Bech32Addr(Bech32AddrResponse),
    BytesAddr(BytesAddrResponse),
}

/// The errors a query can surface, from either direction of the codec.
#[derive(Clone, Copy, Debug, PartialEq, Eq, Structural)]
pub enum QueryError {
    Encoding(EncodingError),
    Decoding(DecodingError),
}

/// Create the initial state: the caller-supplied count, owned by the
/// caller. The host persists it; there is no re-initialization.
pub fn instantiate(sender: String, msg: InstantiateMsg) -> (st: State)
    ensures
        st.count == msg.count,
        st.owner == sender,
{
    State { count: msg.count, owner: sender }
}

/// Add one to the counter; any caller may do this.
pub fn try_increment(state: State) -> (r: Result<State, ContractError>)
    requires
        state.count < i32::MAX,
    ensures
        r is Ok,
        r->Ok_0.count == state.count + 1,
        r->Ok_0.owner == state.owner,
{
    Ok(State { count: state.count + 1, owner: state.owner })
}

/// Set the counter to `count`, but only for the owner; any other caller
/// is turned away unauthorized and the state is left unchanged.
pub fn try_reset(state: State, sender: &String, count: i32) -> (r: Result<State, ContractError>)
    ensures
        sender@ == state.owner@ ==> r is Ok && r->Ok_0.count == count && r->Ok_0.owner
            == state.owner,
        sender@ != state.owner@ ==> r == Err::<State, ContractError>(
            ContractError::Unauthorized {},
        ),
{
    if *sender == state.owner {
        Ok(State { count, owner: state.owner })
    } else {
        Err(ContractError::Unauthorized {})
    }
}

/// Route a command to the counter: increment for anyone, reset for the
/// owner only.
pub fn execute(state: State, sender: String, msg: ExecuteMsg) -> (r: Result<State, ContractError>)
    requires
        msg is Increment ==> state.count < i32::MAX,
    ensures
        msg is Increment ==> r is Ok && r->Ok_0.count == state.count + 1 && r->Ok_0.owner
            == state.owner,
        msg matches ExecuteMsg::Reset { count } ==> {
            &&& sender@ == state.owner@ ==> (r is Ok && r->Ok_0.count == count && r->Ok_0.owner
                == state.owner)
            &&& sender@ != state.owner@ ==> r == Err::<State, ContractError>(
                ContractError::Unauthorized {},
            )
        },
{
    match msg {
        ExecuteMsg::Increment {} => try_increment(state),
        ExecuteMsg::Reset { count } => try_reset(state, &sender, count),
    }
}

/// Read the current counter value; never fails once the state exists.
pub fn query_count(state: &State) -> (r: CountResponse)
    ensures
        r.count == state.count,
{
    CountResponse { count: state.count }
}

/// Encode 32 bytes under a tag into a checksummed address.
pub fn to_bech32_addr(prefix: String, bytes: [u8; 32]) -> (r: Result<
    Bech32AddrResponse,
    EncodingError,
>)
    ensures
        valid_tag(prefix@) ==> r is Ok && r->Ok_0.bech32_addr@ == encoded(prefix@, bytes@),
        !valid_tag(prefix@) ==> r == Err::<Bech32AddrResponse, EncodingError>(EncodingError {}),
{
    match encode(prefix.as_str(), &bytes) {
        Ok(s) => Ok(Bech32AddrResponse { bech32_addr: s }),
        Err(e) => Err(e),
    }
}

/// Decode a checksummed address back into its tag and 32 bytes.
pub fn from_bech32_addr(bech32_addr: String) -> (r: Result<BytesAddrResponse, DecodingError>)
    ensures
        decode_spec(bech32_addr@) matches Ok(tp) ==> (r is Ok && r->Ok_0.prefix@ == tp.0
            && r->Ok_0.bytes@ == tp.1),
        decode_spec(bech32_addr@) matches Err(e) ==> r == Err::<BytesAddrResponse, DecodingError>(
            e,
        ),
{
    match decode(bech32_addr.as_str()) {
        Ok((prefix, bytes)) => Ok(BytesAddrResponse { prefix, bytes }),
        Err(e) => Err(e),
    }
}

/// Route a query: read the counter, encode an address, or decode one.
/// Queries are read-only and surface the codec's errors unchanged.
pub fn query(state: &State, msg: QueryMsg) -> (r: Result<QueryAnswer, QueryError>)
    ensures
        msg is GetCount ==> r == Ok::<QueryAnswer, QueryError>(
            QueryAnswer::Count(CountResponse { count: state.count }),
        ),
        msg matches QueryMsg::ToBech32 { prefix, bytes } ==> {
            &&& valid_tag(prefix@) ==> (r matches Ok(QueryAnswer::Bech32Addr(a))
                && a.bech32_addr@ == encoded(prefix@, bytes@))
            &&& !valid_tag(prefix@) ==> r == Err::<QueryAnswer, QueryError>(
                QueryError::Encoding(EncodingError {}),
            )
        },
        msg matches QueryMsg::FromBech32 { bech32 } ==> {
            &&& decode_spec(bech32@) matches Ok(tp) ==> (r matches Ok(QueryAnswer::BytesAddr(a))
                && a.prefix@ == tp.0 && a.bytes@ == tp.1)
            &&& decode_spec(bech32@) matches Err(e) ==> r == Err::<QueryAnswer, QueryError>(
                QueryError::Decoding(e),
            )
        },
{
    match msg {
        QueryMsg::GetCount {} => Ok(QueryAnswer::Count(query_count(state))),
        QueryMsg::ToBech32 { prefix, bytes } => match to_bech32_addr(prefix, bytes) {
            Ok(a) => Ok(QueryAnswer::Bech32Addr(a)),
            Err(e) => Err(QueryError::Encoding(e)),
        },
        QueryMsg::FromBech32 { bech32 } => match from_bech32_addr(bech32) {
            Ok(a) => Ok(QueryAnswer::BytesAddr(a)),
            Err(e) => Err(QueryError::Decoding(e)),
        },
    }
}

} // verus!
