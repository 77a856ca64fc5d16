//! Round trips and decode failures of the wire format.

use contract_abi::DecodeError;
use contract_abi::address::Address;
use contract_abi::context::ContractContext;
use contract_abi::ordered::OrderedMap;
use contract_abi::ordered::OrderedSet;
use contract_abi::serialization::Cursor;
use contract_abi::serialization::ReadWrite;
use contract_abi::token::TokenContractState;

fn encode<T: ReadWrite>(value: &T) -> Vec<u8> {
    let mut out: Vec<u8> = Vec::new();
    value.write_to(&mut out);
    out
}

fn decode<T: ReadWrite>(bytes: Vec<u8>) -> Result<T, DecodeError> {
    let mut reader = Cursor::new(bytes);
    T::read_from(&mut reader)
}

fn account(fill: u8) -> Address {
    Address::Account(vec![fill; 20])
}

#[test]
fn u64_round_trip() {
    for value in [0u64, 1, 42, u64::MAX] {
        let bytes = encode(&value);
        assert_eq!(bytes.len(), 8);
        assert_eq!(decode::<u64>(bytes), Ok(value));
    }
    assert_eq!(encode(&1u64), vec![0, 0, 0, 0, 0, 0, 0, 1]);
}

#[test]
fn u64_truncated() {
    assert_eq!(decode::<u64>(vec![1, 2, 3]), Err(DecodeError::Truncated));
}

#[test]
fn byte_string_round_trip() {
    for value in [Vec::new(), vec![9u8], vec![1u8, 2, 3, 255]] {
        let bytes = encode(&value);
        assert_eq!(decode::<Vec<u8>>(bytes), Ok(value));
    }
    assert_eq!(encode(&vec![7u8, 8]), vec![0, 0, 0, 2, 7, 8]);
}

#[test]
fn byte_string_truncated() {
    assert_eq!(
        decode::<Vec<u8>>(vec![0, 0, 0, 5, 1, 2]),
        Err(DecodeError::Truncated)
    );
}

#[test]
fn string_round_trip() {
    for value in ["", "transfer", "smiley \u{263a}"] {
        let bytes = encode(&value.to_string());
        assert_eq!(decode::<String>(bytes), Ok(value.to_string()));
    }
}

#[test]
fn string_rejects_invalid_utf8() {
    assert_eq!(
        decode::<String>(vec![0, 0, 0, 1, 0xff]),
        Err(DecodeError::InvalidUtf8)
    );
}

#[test]
fn option_round_trip() {
    let none: Option<u64> = None;
    assert_eq!(encode(&none), vec![0]);
    assert_eq!(decode::<Option<u64>>(vec![0]), Ok(None));
    let some: Option<u64> = Some(7);
    let bytes = encode(&some);
    assert_eq!(bytes[0], 1);
    assert_eq!(decode::<Option<u64>>(bytes), Ok(Some(7)));
    // any nonzero marker means present
    assert_eq!(
        decode::<Option<u64>>(vec![2, 0, 0, 0, 0, 0, 0, 0, 9]),
        Ok(Some(9))
    );
}

#[test]
fn sequence_round_trip() {
    let value: Vec<u64> = vec![3, 1, 2];
    let bytes = encode(&value);
    assert_eq!(bytes[0..4], [0, 0, 0, 3]);
    assert_eq!(decode::<Vec<u64>>(bytes), Ok(value));
    let empty: Vec<u64> = Vec::new();
    let bytes = encode(&empty);
    assert_eq!(decode::<Vec<u64>>(bytes), Ok(Vec::new()));
}

#[test]
fn sequence_rejects_negative_count() {
    assert_eq!(
        decode::<Vec<u64>>(vec![0xff, 0xff, 0xff, 0xff]),
        Err(DecodeError::MalformedLength)
    );
}

#[test]
fn address_round_trip() {
    let id: Vec<u8> = (0..20u8).collect();
    for (tag, value) in [
        (0u8, Address::Account(id.clone())),
        (1, Address::SystemContract(id.clone())),
        (2, Address::PublicContract(id.clone())),
        (3, Address::ZkContract(id.clone())),
    ] {
        let bytes = encode(&value);
        assert_eq!(bytes.len(), 21);
        assert_eq!(bytes[0], tag);
        assert_eq!(decode::<Address>(bytes), Ok(value));
    }
}

#[test]
fn address_rejects_unknown_discriminant() {
    let mut bytes = vec![4u8];
    bytes.extend_from_slice(&[0u8; 20]);
    assert_eq!(
        decode::<Address>(bytes),
        Err(DecodeError::UnknownDiscriminant)
    );
}

#[test]
fn address_truncated() {
    assert_eq!(
        decode::<Address>(vec![0, 1, 2, 3]),
        Err(DecodeError::Truncated)
    );
}

#[test]
fn hash_round_trip() {
    let value = contract_abi::hash::Hash { bytes: (0..32u8).collect() };
    let bytes = encode(&value);
    assert_eq!(bytes.len(), 32);
    assert_eq!(decode::<contract_abi::hash::Hash>(bytes), Ok(value));
}

#[test]
fn context_round_trip() {
    let value = ContractContext {
        owner: account(1),
        contract_address: account(2),
        sender: account(3),
        block_time: -5,
        block_production_time: i64::MAX,
        current_transaction: contract_abi::hash::Hash { bytes: vec![4; 32] },
        original_transaction: contract_abi::hash::Hash { bytes: vec![5; 32] },
    };
    let bytes = encode(&value);
    assert_eq!(bytes.len(), 21 * 3 + 8 * 2 + 32 * 2);
    assert_eq!(decode::<ContractContext>(bytes), Ok(value));
}

#[test]
fn map_round_trip() {
    let mut map: OrderedMap<Address, u64> = OrderedMap::new();
    assert_eq!(map.insert(account(2), 20), None);
    assert_eq!(map.insert(account(1), 10), None);
    assert_eq!(map.insert(account(2), 22), Some(20));
    let bytes = encode(&map);
    // count, then the pairs sorted by key
    assert_eq!(bytes[0..4], [0, 0, 0, 2]);
    assert_eq!(bytes[4], 0);
    assert_eq!(bytes[5], 1);
    let decoded = decode::<OrderedMap<Address, u64>>(bytes.clone()).unwrap();
    assert_eq!(encode(&decoded), bytes);
    assert_eq!(decoded.entries, map.entries);
}

#[test]
fn map_accepts_unsorted_keys() {
    // two pairs, larger key first: sortedness is not required of map input
    let mut bytes = vec![0, 0, 0, 2];
    bytes.extend_from_slice(&encode(&account(2)));
    bytes.extend_from_slice(&encode(&20u64));
    bytes.extend_from_slice(&encode(&account(1)));
    bytes.extend_from_slice(&encode(&10u64));
    let decoded = decode::<OrderedMap<Address, u64>>(bytes).unwrap();
    let mut expected: OrderedMap<Address, u64> = OrderedMap::new();
    expected.insert(account(1), 10);
    expected.insert(account(2), 20);
    assert_eq!(decoded.entries, expected.entries);
}

#[test]
fn map_rejects_duplicate_key() {
    let mut bytes = vec![0, 0, 0, 2];
    bytes.extend_from_slice(&encode(&account(1)));
    bytes.extend_from_slice(&encode(&10u64));
    bytes.extend_from_slice(&encode(&account(1)));
    bytes.extend_from_slice(&encode(&11u64));
    assert_eq!(
        decode::<OrderedMap<Address, u64>>(bytes).err(),
        Some(DecodeError::DuplicateMapKey)
    );
}

#[test]
fn set_round_trip() {
    let mut set: OrderedSet<u64> = OrderedSet::new();
    assert!(set.insert(1));
    assert!(set.insert(2));
    assert!(set.insert(3));
    assert!(!set.insert(2));
    let bytes = encode(&set);
    // the set's count prefix is little-endian
    assert_eq!(bytes[0..4], [3, 0, 0, 0]);
    let decoded = decode::<OrderedSet<u64>>(bytes.clone()).unwrap();
    assert_eq!(encode(&decoded), bytes);
    assert!(decoded.contains(&1) && decoded.contains(&2) && decoded.contains(&3));
    assert!(!decoded.contains(&4));
}

#[test]
fn set_rejects_misordered_elements() {
    let mut bytes = vec![2, 0, 0, 0];
    bytes.extend_from_slice(&encode(&2u64));
    bytes.extend_from_slice(&encode(&1u64));
    assert_eq!(
        decode::<OrderedSet<u64>>(bytes).err(),
        Some(DecodeError::MisorderedSetEntry)
    );
}

#[test]
fn set_rejects_duplicate_elements() {
    let mut bytes = vec![2, 0, 0, 0];
    bytes.extend_from_slice(&encode(&1u64));
    bytes.extend_from_slice(&encode(&1u64));
    assert_eq!(
        decode::<OrderedSet<u64>>(bytes).err(),
        Some(DecodeError::MisorderedSetEntry)
    );
}

#[test]
fn token_state_round_trip() {
    let mut balances: OrderedMap<Address, u64> = OrderedMap::new();
    balances.insert(account(1), 100);
    balances.insert(account(9), 7);
    let state = TokenContractState {
        symbol: b"TOKEN\0\0\0\0\0\0\0\0\0\0\0".to_vec(),
        total_supply: 107,
        balances,
    };
    let bytes = encode(&state);
    assert_eq!(bytes.len(), 16 + 8 + 4 + 2 * 29);
    let decoded = decode::<TokenContractState>(bytes.clone()).unwrap();
    assert_eq!(encode(&decoded), bytes);
    assert_eq!(decoded.symbol, state.symbol);
    assert_eq!(decoded.total_supply, 107);
}
