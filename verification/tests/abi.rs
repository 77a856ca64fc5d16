//! Selector derivation, dispatch routing, the packed result word, and the
//! boundary exports end to end.

use contract_abi::DecodeError;
use contract_abi::address::Address;
use contract_abi::base::info;
use contract_abi::base::prepare_dispatch;
use contract_abi::base::remove_function_name_hash;
use contract_abi::context::ContractContext;
use contract_abi::entry::EntryKind;
use contract_abi::entry::EntryPoint;
use contract_abi::entry::ParamType;
use contract_abi::entry::ParamValue;
use contract_abi::entry::check_selectors;
use contract_abi::entry::decode_param;
use contract_abi::entry::export_symbol;
use contract_abi::entry::pack_result;
use contract_abi::entry::parse_param_type;
use contract_abi::entry::unpack_result;
use contract_abi::ordered::OrderedMap;
use contract_abi::selector::create_action_name;
use contract_abi::selector::hash_identifier;
use contract_abi::serialization::Cursor;
use contract_abi::serialization::ReadWrite;
use contract_abi::token::TokenContractState;
use contract_abi::token::action_mint;
use contract_abi::token::action_transfer;
use contract_abi::token::init;

fn encode<T: ReadWrite>(value: &T) -> Vec<u8> {
    let mut out: Vec<u8> = Vec::new();
    value.write_to(&mut out);
    out
}

fn decode<T: ReadWrite>(bytes: Vec<u8>) -> Result<T, DecodeError> {
    let mut reader = Cursor::new(bytes);
    T::read_from(&mut reader)
}

fn account(fill: u8) -> Address {
    Address::Account(vec![fill; 20])
}

fn context(owner: Address, sender: Address) -> ContractContext {
    ContractContext {
        owner,
        contract_address: account(50),
        sender,
        block_time: 11,
        block_production_time: 12,
        current_transaction: contract_abi::hash::Hash { bytes: vec![1; 32] },
        original_transaction: contract_abi::hash::Hash { bytes: vec![2; 32] },
    }
}

#[test]
fn selector_is_deterministic_and_names_differ() {
    let first = hash_identifier(&"transfer".to_string());
    let second = hash_identifier(&"transfer".to_string());
    assert_eq!(first, second);
    assert_eq!(
        create_action_name(first),
        create_action_name(second)
    );
    let mint_selector = hash_identifier(&"mint".to_string());
    assert_ne!(mint_selector, first);
}

#[test]
fn action_name_has_fixed_width_hex() {
    assert_eq!(create_action_name(1), "action_00000001");
    assert_eq!(create_action_name(0xdeadbeef), "action_deadbeef");
    assert_eq!(create_action_name(0), "action_00000000");
    assert_eq!(create_action_name(u32::MAX), "action_ffffffff");
}

#[test]
fn pack_and_unpack_are_inverse() {
    for (length, address) in [
        (0u32, 0u32),
        (1, 2),
        (28, 1_048_576),
        (u32::MAX, u32::MAX),
        (0, u32::MAX),
        (u32::MAX, 0),
    ] {
        let packed = pack_result(length, address);
        assert_eq!(unpack_result(packed), (length, address));
    }
    assert_eq!(pack_result(1, 2), (1u64 << 32) | 2);
}

#[test]
fn strip_selector_prefix() {
    let stripped = remove_function_name_hash(vec![1, 2, 3, 4, 5, 6]);
    assert_eq!(stripped, vec![5, 6]);
}

#[test]
fn info_hands_utf8_bytes() {
    assert_eq!(info("vec len: 2".to_string()), b"vec len: 2".to_vec());
}

#[test]
fn dispatch_routes_transfer_payload() {
    let selector = hash_identifier(&"transfer".to_string());
    let mut payload = selector.to_be_bytes().to_vec();
    let mut argument = encode(&account(8));
    argument.extend_from_slice(&encode(&77u64));
    payload.extend_from_slice(&argument);
    let plan = prepare_dispatch(payload).unwrap();
    assert_eq!(plan.export_name, create_action_name(selector));
    assert_eq!(plan.argument, argument);
}

#[test]
fn dispatch_needs_a_selector() {
    assert_eq!(
        prepare_dispatch(vec![1, 2, 3]).map(|p| p.argument),
        Err(DecodeError::Truncated)
    );
}

#[test]
fn init_export_decodes_context_and_absent_state() {
    let ctx_bytes = encode(&context(account(1), account(1)));
    let rpc_bytes = vec![0u8];
    let out = init(ctx_bytes, rpc_bytes).unwrap();
    let mut expected = vec![0u8; 16];
    expected.extend_from_slice(&0u64.to_be_bytes());
    expected.extend_from_slice(&0u32.to_be_bytes());
    assert_eq!(out, expected);
}

#[test]
fn init_export_keeps_a_present_state() {
    let mut balances: OrderedMap<Address, u64> = OrderedMap::new();
    balances.insert(account(1), 40);
    let state = TokenContractState {
        symbol: vec![7; 16],
        total_supply: 40,
        balances,
    };
    let state_bytes = encode(&state);
    let mut rpc_bytes = vec![1u8];
    rpc_bytes.extend_from_slice(&state_bytes);
    let ctx_bytes = encode(&context(account(1), account(1)));
    let out = init(ctx_bytes, rpc_bytes).unwrap();
    assert_eq!(out, state_bytes);
}

#[test]
fn init_export_rejects_truncated_context() {
    assert_eq!(
        init(vec![0, 1], vec![0]),
        Err(DecodeError::Truncated)
    );
}

#[test]
fn mint_export_grows_owner_balance() {
    let owner = account(1);
    let mut balances: OrderedMap<Address, u64> = OrderedMap::new();
    balances.insert(owner.duplicate(), 10);
    let state = TokenContractState {
        symbol: vec![0; 16],
        total_supply: 10,
        balances,
    };
    let ctx_bytes = encode(&context(account(1), account(1)));
    let out = action_mint(ctx_bytes, encode(&state), 5u64.to_be_bytes().to_vec()).unwrap();
    let new_state: TokenContractState = decode(out).unwrap();
    assert_eq!(new_state.get_balance(account(1)), 15);
    // the handler advances the supply once per balance update and once again
    assert_eq!(new_state.total_supply, 20);
}

#[test]
fn mint_export_ignores_non_owner() {
    let state = TokenContractState {
        symbol: vec![0; 16],
        total_supply: 0,
        balances: OrderedMap::new(),
    };
    let state_bytes = encode(&state);
    let ctx_bytes = encode(&context(account(1), account(2)));
    let out = action_mint(ctx_bytes, state_bytes.clone(), 5u64.to_be_bytes().to_vec()).unwrap();
    assert_eq!(out, state_bytes);
}

#[test]
fn transfer_export_moves_funds() {
    let owner = account(1);
    let mut balances: OrderedMap<Address, u64> = OrderedMap::new();
    balances.insert(owner.duplicate(), 50);
    let state = TokenContractState {
        symbol: vec![0; 16],
        total_supply: 50,
        balances,
    };
    let ctx_bytes = encode(&context(account(1), account(1)));
    let mut rpc = encode(&account(9));
    rpc.extend_from_slice(&20u64.to_be_bytes());
    let out = action_transfer(ctx_bytes, encode(&state), rpc).unwrap();
    let new_state: TokenContractState = decode(out).unwrap();
    assert_eq!(new_state.get_balance(account(1)), 30);
    assert_eq!(new_state.get_balance(account(9)), 20);
    assert_eq!(new_state.total_supply, 50);
}

#[test]
fn transfer_export_requires_funds() {
    let owner = account(1);
    let mut balances: OrderedMap<Address, u64> = OrderedMap::new();
    balances.insert(owner.duplicate(), 5);
    let state = TokenContractState {
        symbol: vec![0; 16],
        total_supply: 5,
        balances,
    };
    let state_bytes = encode(&state);
    let ctx_bytes = encode(&context(account(1), account(1)));
    let mut rpc = encode(&account(9));
    rpc.extend_from_slice(&20u64.to_be_bytes());
    let out = action_transfer(ctx_bytes, state_bytes.clone(), rpc).unwrap();
    assert_eq!(out, state_bytes);
}

#[test]
fn parameter_type_table() {
    assert_eq!(parse_param_type("u64"), Some(ParamType::U64));
    assert_eq!(parse_param_type("i64"), Some(ParamType::I64));
    assert_eq!(parse_param_type("i32"), Some(ParamType::I32));
    assert_eq!(parse_param_type("Address"), Some(ParamType::Address));
    assert_eq!(parse_param_type("Hash"), Some(ParamType::Hash));
    assert_eq!(parse_param_type("Vec<u8>"), Some(ParamType::Bytes));
    assert_eq!(parse_param_type("String"), Some(ParamType::Text));
    // unsupported entry shapes must fail the build
    assert_eq!(parse_param_type("(u64, u64)"), None);
    assert_eq!(parse_param_type("&str"), None);
}

#[test]
fn decode_declared_parameters_in_order() {
    let mut bytes = encode(&account(3));
    bytes.extend_from_slice(&9u64.to_be_bytes());
    let mut reader = Cursor::new(bytes);
    match decode_param(&mut reader, ParamType::Address) {
        Ok(ParamValue::Address(a)) => assert_eq!(a, account(3)),
        other => panic!("unexpected decode outcome: {:?}", other),
    }
    match decode_param(&mut reader, ParamType::U64) {
        Ok(ParamValue::U64(v)) => assert_eq!(v, 9),
        other => panic!("unexpected decode outcome: {:?}", other),
    }
    match decode_param(&mut reader, ParamType::I32) {
        Err(e) => assert_eq!(e, DecodeError::Truncated),
        other => panic!("unexpected decode outcome: {:?}", other),
    }
}

#[test]
fn export_symbols_follow_the_naming_rule() {
    let init_entry = EntryPoint {
        kind: EntryKind::Init,
        name: "initialize".to_string(),
        params: Vec::new(),
    };
    assert_eq!(export_symbol(&init_entry), "init");
    let transfer_entry = EntryPoint {
        kind: EntryKind::Action,
        name: "transfer".to_string(),
        params: vec![ParamType::Address, ParamType::U64],
    };
    assert_eq!(
        export_symbol(&transfer_entry),
        create_action_name(hash_identifier(&"transfer".to_string()))
    );
}

#[test]
fn selector_collision_check() {
    let mk = |name: &str| EntryPoint {
        kind: EntryKind::Action,
        name: name.to_string(),
        params: Vec::new(),
    };
    let distinct = vec![mk("mint"), mk("transfer"), mk("burn")];
    assert!(check_selectors(&distinct));
    let colliding = vec![mk("mint"), mk("transfer"), mk("mint")];
    assert!(!check_selectors(&colliding));
}
