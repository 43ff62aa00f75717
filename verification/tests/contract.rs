use counter_bech32::contract::{execute, instantiate, query, ContractError, QueryAnswer};
use counter_bech32::msg::{ExecuteMsg, InstantiateMsg, QueryMsg};

fn count_of(answer: QueryAnswer) -> i32 {
    match answer {
        QueryAnswer::Count(c) => c.count,
        _ => panic!("expected a count answer"),
    }
}

#[test]
fn proper_initialization() {
    let msg = InstantiateMsg { count: 17 };
    let state = instantiate("creator".to_string(), msg);
    assert_eq!(state.owner, "creator".to_string());

    // it worked, let's query the state
    let res = query(&state, QueryMsg::GetCount {}).unwrap();
    assert_eq!(17, count_of(res));
}

#[test]
fn increment() {
    let msg = InstantiateMsg { count: 17 };
    let state = instantiate("creator".to_string(), msg);

    // anyone can increment
    let msg = ExecuteMsg::Increment {};
    let state = execute(state, "anyone".to_string(), msg).unwrap();

    // should increase counter by 1
    let res = query(&state, QueryMsg::GetCount {}).unwrap();
    assert_eq!(18, count_of(res));
}

#[test]
fn reset() {
    let msg = InstantiateMsg { count: 17 };
    let state = instantiate("creator".to_string(), msg);

    // a stranger may not reset
    let msg = ExecuteMsg::Reset { count: 5 };
    let res = execute(state.clone(), "anyone".to_string(), msg);
    match res {
        Err(ContractError::Unauthorized {}) => {}
        _ => panic!("Must return unauthorized error"),
    }

    // only the original creator can reset the counter
    let msg = ExecuteMsg::Reset { count: 5 };
    let state = execute(state, "creator".to_string(), msg).unwrap();

    // should now be 5
    let res = query(&state, QueryMsg::GetCount {}).unwrap();
    assert_eq!(5, count_of(res));
}

#[test]
fn test_addr_conversions() {
    let msg = InstantiateMsg { count: 17 };
    let state = instantiate("creator".to_string(), msg);

    let mock_beck32_addr = "juno1lqgdq9u8zhcvwwwz3xjswactrtq6qzptmlzlh6xspl34dxq32uhqhlphat";
    let mock_prefix = "juno".to_string();
    let mock_bytes: [u8; 32] = [
        248, 16, 208, 23, 135, 21, 240, 199, 57, 194, 137, 165, 7, 119, 11, 26, 193, 160, 8, 43,
        223, 197, 251, 232, 208, 15, 227, 86, 152, 17, 87, 46,
    ];

    // bytes from the encoded address
    let res = query(
        &state,
        QueryMsg::FromBech32 { bech32: mock_beck32_addr.to_string() },
    )
    .unwrap();
    match res {
        QueryAnswer::BytesAddr(a) => {
            assert_eq!(a.prefix, mock_prefix.clone());
            assert_eq!(a.bytes, mock_bytes);
        }
        _ => panic!("expected a bytes answer"),
    }

    // the encoded address from the bytes
    let res = query(
        &state,
        QueryMsg::ToBech32 { prefix: mock_prefix, bytes: mock_bytes },
    )
    .unwrap();
    match res {
        QueryAnswer::Bech32Addr(a) => {
            assert_eq!(a.bech32_addr, mock_beck32_addr.to_string());
        }
        _ => panic!("expected an address answer"),
    }
}

#[test]
fn counter_lifecycle() {
    // initialize at 17, read it back
    let state = instantiate("creator".to_string(), InstantiateMsg { count: 17 });
    assert_eq!(17, count_of(query(&state, QueryMsg::GetCount {}).unwrap()));

    // increment to 18
    let state = execute(state, "anyone".to_string(), ExecuteMsg::Increment {}).unwrap();
    assert_eq!(18, count_of(query(&state, QueryMsg::GetCount {}).unwrap()));

    // a non-owner reset is refused and the count stays 18
    let res = execute(state.clone(), "anyone".to_string(), ExecuteMsg::Reset { count: 5 });
    assert!(matches!(res, Err(ContractError::Unauthorized {})));
    assert_eq!(18, count_of(query(&state, QueryMsg::GetCount {}).unwrap()));

    // the owner may reset to 5
    let state = execute(state, "creator".to_string(), ExecuteMsg::Reset { count: 5 }).unwrap();
    assert_eq!(5, count_of(query(&state, QueryMsg::GetCount {}).unwrap()));
}
