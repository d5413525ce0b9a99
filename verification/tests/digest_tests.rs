use fork_digest::derive::{derive_entry_slot, derive_mapping_slot, pad_key32};
use fork_digest::digest::{derive_item, digest_config, ContractData, ForkConfig};
use fork_digest::hexstr::hex_decode;
use fork_digest::layout::{classify_type, parse_storage_layout, RawTypeDescriptor};
use fork_digest::word::parse_dec_u64;
use fork_digest::{
    create_storage_layout, AccountRecord, Address, DigestError, LocalStateStore, RemoteSnapshot,
    StorageItem, StorageLayout, StorageType, Word,
};

fn addr(last: u8) -> Address {
    let mut bytes = vec![0u8; 19];
    bytes.push(last);
    Address { bytes }
}

fn word(last: u8) -> Word {
    let mut bytes = vec![0u8; 31];
    bytes.push(last);
    Word { bytes }
}

fn record(nonce: u64) -> AccountRecord {
    AccountRecord { balance: word(0), nonce, code_hash: word(0), code: vec![] }
}

fn simple_type(width: &str) -> StorageType {
    StorageType::Simple {
        encoding: "inplace".to_string(),
        label: "t".to_string(),
        number_of_bytes: width.to_string(),
    }
}

fn mapping_type(key: &str, value: &str) -> StorageType {
    StorageType::Mapping {
        encoding: "mapping".to_string(),
        key: key.to_string(),
        value: value.to_string(),
        label: None,
        number_of_bytes: None,
    }
}

fn item(label: &str, slot: &str, type_: &str) -> StorageItem {
    StorageItem {
        ast_id: 1,
        contract: "Example".to_string(),
        label: label.to_string(),
        offset: 0,
        slot: slot.to_string(),
        type_: type_.to_string(),
    }
}

fn contract(last: u8, mappings: Vec<(String, Vec<String>)>) -> ContractData {
    ContractData { address: addr(last), artifacts_path: "layout.json".to_string(), mappings }
}

/// A Simple item's single derived slot is the declared slot, byte for byte,
/// whatever the declared byte width says.
#[test]
fn simple_item_slot_is_declared_slot() {
    for width in ["1", "20", "32"] {
        let layout = StorageLayout {
            storage: vec![item("x", "7", "t_simple")],
            types: vec![("t_simple".to_string(), simple_type(width))],
        };
        let cd = contract(1, vec![]);
        let (skipped, slots) = derive_item(&layout.storage[0], &layout, &cd).unwrap();
        assert!(!skipped);
        assert_eq!(slots.len(), 1);
        let mut expected = vec![0u8; 31];
        expected.push(7);
        assert_eq!(slots[0].bytes, expected);
    }
}

/// Re-running derivation on the same (key, declared slot) pair yields the
/// identical 256-bit result.
#[test]
fn derivation_is_deterministic() {
    let declared = Word::from_decimal("3").unwrap();
    let a = derive_entry_slot("0x01", 32, &declared).unwrap();
    let b = derive_entry_slot("0x01", 32, &declared).unwrap();
    assert_eq!(a.bytes, b.bytes);
    assert_eq!(a.bytes.len(), 32);
}

/// Key padding left-pads with zero bytes to exactly 32; a 32-byte key passes
/// through unchanged; a longer key is a defined error.
#[test]
fn key_padding_rules() {
    let short = vec![0xABu8, 0xCD];
    let padded = pad_key32(&short, 32).unwrap();
    assert_eq!(padded.len(), 32);
    assert_eq!(&padded[..30], &[0u8; 30][..]);
    assert_eq!(&padded[30..], &[0xAB, 0xCD][..]);

    let full: Vec<u8> = (0u8..32).collect();
    assert_eq!(pad_key32(&full, 32).unwrap(), full);

    let long = vec![1u8; 33];
    assert_eq!(pad_key32(&long, 33).unwrap_err(), DigestError::KeyTooLongError);
}

/// A key longer than its type's declared byte width is rejected too.
#[test]
fn key_longer_than_width_is_rejected() {
    let declared = Word::from_decimal("3").unwrap();
    let err = derive_entry_slot("0x0102", 1, &declared).unwrap_err();
    assert_eq!(err, DigestError::KeyTooLongError);
}

/// A descriptor fitting both the Mapping and the Simple shape resolves to
/// Mapping.
#[test]
fn ambiguous_descriptor_resolves_to_mapping() {
    let raw = RawTypeDescriptor {
        encoding: Some("mapping".to_string()),
        label: Some("both".to_string()),
        number_of_bytes: Some("32".to_string()),
        key: Some("t_k".to_string()),
        value: Some("t_v".to_string()),
    };
    match classify_type(raw).unwrap() {
        StorageType::Mapping { key, value, .. } => {
            assert_eq!(key, "t_k");
            assert_eq!(value, "t_v");
        },
        StorageType::Simple { .. } => panic!("ambiguous descriptor parsed as Simple"),
    }
}

/// A descriptor fitting neither shape is a ParseError.
#[test]
fn shapeless_descriptor_is_parse_error() {
    let raw = RawTypeDescriptor {
        encoding: Some("inplace".to_string()),
        label: None,
        number_of_bytes: None,
        key: None,
        value: None,
    };
    assert_eq!(classify_type(raw).unwrap_err(), DigestError::ParseError);
}

/// A repeated type id in the table is a ParseError.
#[test]
fn duplicate_type_id_is_parse_error() {
    let raw = RawTypeDescriptor {
        encoding: Some("inplace".to_string()),
        label: Some("t".to_string()),
        number_of_bytes: Some("32".to_string()),
        key: None,
        value: None,
    };
    let raw2 = RawTypeDescriptor {
        encoding: Some("inplace".to_string()),
        label: Some("t".to_string()),
        number_of_bytes: Some("32".to_string()),
        key: None,
        value: None,
    };
    let out = parse_storage_layout(vec![], vec![("t_a".to_string(), raw), ("t_a".to_string(), raw2)]);
    assert_eq!(out.unwrap_err(), DigestError::ParseError);
}

/// A mapping whose value type is itself a mapping yields zero derived slots
/// and one diagnostic; processing goes on.
#[test]
fn nested_mapping_is_skipped_with_diagnostic() {
    let layout = StorageLayout {
        storage: vec![item("m", "2", "t_map")],
        types: vec![
            ("t_map".to_string(), mapping_type("t_k", "t_inner")),
            ("t_inner".to_string(), mapping_type("t_k", "t_v")),
            ("t_k".to_string(), simple_type("32")),
            ("t_v".to_string(), simple_type("32")),
        ],
    };
    let cd = contract(1, vec![("m".to_string(), vec!["0x01".to_string()])]);
    let (skipped, slots) = derive_item(&layout.storage[0], &layout, &cd).unwrap();
    assert!(skipped);
    assert_eq!(slots.len(), 0);

    let mut db = LocalStateStore::new();
    db.insert_account_info(addr(1), record(1));
    let snapshot = RemoteSnapshot { block_number: 5, accounts: vec![], storage: vec![] };
    let skips = create_storage_layout(&cd, &layout, &snapshot, &mut db).unwrap();
    assert_eq!(skips, 1);
    assert_eq!(db.storage_list().len(), 0);
}

/// Declared slot 3 with hex key 0x01 and key width 32 derives
/// keccak256(0x00..01 (32 bytes) ++ 0x00..03 (32 bytes)).
#[test]
fn known_mapping_slot_derivation() {
    let mut input = vec![0u8; 31];
    input.push(1);
    input.extend_from_slice(&[0u8; 31]);
    input.push(3);
    assert_eq!(input.len(), 64);
    let expected = revm::primitives::keccak256(input.as_slice()).0.to_vec();

    let declared = Word::from_decimal("3").unwrap();
    let derived = derive_entry_slot("0x01", 32, &declared).unwrap();
    assert_eq!(derived.bytes, expected);

    // the hash is a genuine digest, not the padded input handed back
    assert_ne!(derived.bytes, declared.bytes);
    let other = derive_entry_slot("0x02", 32, &declared).unwrap();
    assert_ne!(derived.bytes, other.bytes);

    // the same derivation through a padded key and the raw hasher agrees
    let key_bytes = hex_decode("0x01").unwrap();
    let padded = pad_key32(&key_bytes, 32).unwrap();
    let again = derive_mapping_slot(&padded, &declared);
    assert_eq!(again.bytes, expected);
}

/// Hex keys accept an optional 0x marker; odd length or a non-hex digit is
/// a ConfigError.
#[test]
fn hex_key_decoding() {
    assert_eq!(hex_decode("0x01").unwrap(), vec![1]);
    assert_eq!(hex_decode("01").unwrap(), vec![1]);
    assert_eq!(hex_decode("0xdeadBEEF").unwrap(), vec![0xDE, 0xAD, 0xBE, 0xEF]);
    assert_eq!(hex_decode("0x").unwrap(), Vec::<u8>::new());
    assert_eq!(hex_decode("0x1").unwrap_err(), DigestError::ConfigError);
    assert_eq!(hex_decode("0xzz").unwrap_err(), DigestError::ConfigError);
}

/// Decimal slot strings parse to the full 256-bit range, and nothing else.
#[test]
fn decimal_slot_parsing() {
    assert_eq!(Word::from_decimal("0").unwrap().bytes, vec![0u8; 32]);
    let mut expected = vec![0u8; 31];
    expected.push(255);
    assert_eq!(Word::from_decimal("255").unwrap().bytes, expected);

    let max = "115792089237316195423570985008687907853269984665640564039457584007913129639935";
    assert_eq!(Word::from_decimal(max).unwrap().bytes, vec![0xFFu8; 32]);

    let too_big = "115792089237316195423570985008687907853269984665640564039457584007913129639936";
    assert_eq!(Word::from_decimal(too_big).unwrap_err(), DigestError::ParseError);
    assert_eq!(Word::from_decimal("").unwrap_err(), DigestError::ParseError);
    assert_eq!(Word::from_decimal("12a").unwrap_err(), DigestError::ParseError);

    assert_eq!(parse_dec_u64("32").unwrap(), 32);
    assert_eq!(parse_dec_u64("18446744073709551616").unwrap_err(), DigestError::ParseError);
    assert_eq!(parse_dec_u64("x").unwrap_err(), DigestError::ParseError);
}

fn one_contract_config(contracts: Vec<ContractData>) -> ForkConfig {
    ForkConfig {
        output_path: None,
        output_filename: "out.json".to_string(),
        provider: "http://localhost:8545".to_string(),
        block_number: 17_000_000,
        contracts,
    }
}

fn simple_layout() -> StorageLayout {
    StorageLayout {
        storage: vec![item("x", "7", "t_simple")],
        types: vec![("t_simple".to_string(), simple_type("32"))],
    }
}

/// A contract referencing a type id absent from its table fails with
/// UnknownTypeError while its sibling completes, and the store holds the
/// sibling's data.
#[test]
fn unknown_type_fails_one_contract_only() {
    let bad_layout = StorageLayout {
        storage: vec![item("x", "1", "t_missing")],
        types: vec![],
    };
    let good_layout = simple_layout();
    let config = one_contract_config(vec![contract(1, vec![]), contract(2, vec![])]);
    let snapshot = RemoteSnapshot {
        block_number: 1,
        accounts: vec![(addr(1), record(9)), (addr(2), record(10))],
        storage: vec![((addr(2), word(7)), word(0x55))],
    };
    let (store, reports) =
        digest_config(&config, &vec![Some(bad_layout), Some(good_layout)], &snapshot).unwrap();
    assert_eq!(reports.len(), 2);
    assert_eq!(reports[0].failure, Some(DigestError::UnknownTypeError));
    assert_eq!(reports[1].failure, None);
    assert!(store.get_account(&addr(2)).is_some());
    let got = store.get_storage(&addr(2), &word(7)).unwrap();
    assert_eq!(got.bytes, word(0x55).bytes);
}

/// A missing artifact is a ParseError for its contract; a missing remote
/// value is a RemoteFetchError; neither stops the run.
#[test]
fn per_contract_failures_are_isolated() {
    let config = one_contract_config(vec![contract(1, vec![]), contract(2, vec![])]);
    let snapshot = RemoteSnapshot {
        block_number: 1,
        accounts: vec![(addr(1), record(9)), (addr(2), record(10))],
        storage: vec![],
    };
    let (store, reports) =
        digest_config(&config, &vec![None, Some(simple_layout())], &snapshot).unwrap();
    assert_eq!(reports[0].failure, Some(DigestError::ParseError));
    assert_eq!(reports[1].failure, Some(DigestError::RemoteFetchError));
    assert!(store.get_account(&addr(1)).is_none());
}

/// A duplicate contract address, or an artifact list that does not line up,
/// aborts the whole run with ConfigError.
#[test]
fn malformed_configuration_aborts_run() {
    let config = one_contract_config(vec![contract(1, vec![]), contract(1, vec![])]);
    let snapshot = RemoteSnapshot { block_number: 1, accounts: vec![], storage: vec![] };
    let err = digest_config(&config, &vec![None, None], &snapshot).unwrap_err();
    assert_eq!(err, DigestError::ConfigError);

    let config2 = one_contract_config(vec![contract(1, vec![])]);
    let err2 = digest_config(&config2, &vec![], &snapshot).unwrap_err();
    assert_eq!(err2, DigestError::ConfigError);
}

/// A configured key that is not hex is a malformed configuration and
/// aborts the whole run before any state is assembled.
#[test]
fn invalid_hex_key_aborts_run() {
    let layout = StorageLayout {
        storage: vec![item("m", "2", "t_map")],
        types: vec![
            ("t_map".to_string(), mapping_type("t_k", "t_v")),
            ("t_k".to_string(), simple_type("32")),
            ("t_v".to_string(), simple_type("32")),
        ],
    };
    let cd = contract(1, vec![("m".to_string(), vec!["0xzz".to_string()])]);
    let config = one_contract_config(vec![cd]);
    let snapshot =
        RemoteSnapshot { block_number: 1, accounts: vec![(addr(1), record(1))], storage: vec![] };
    let err = digest_config(&config, &vec![Some(layout)], &snapshot).unwrap_err();
    assert_eq!(err, DigestError::ConfigError);
}

/// The assembled store never holds a storage entry for an address with no
/// account entry.
#[test]
fn store_never_holds_storage_without_account() {
    let mapping_layout = StorageLayout {
        storage: vec![item("x", "7", "t_simple"), item("m", "3", "t_map")],
        types: vec![
            ("t_simple".to_string(), simple_type("32")),
            ("t_map".to_string(), mapping_type("t_k", "t_v")),
            ("t_k".to_string(), simple_type("32")),
            ("t_v".to_string(), simple_type("32")),
        ],
    };
    let derived = {
        let declared = Word::from_decimal("3").unwrap();
        derive_entry_slot("0x01", 32, &declared).unwrap()
    };
    let cd = contract(2, vec![("m".to_string(), vec!["0x01".to_string()])]);
    let config = one_contract_config(vec![cd]);
    let snapshot = RemoteSnapshot {
        block_number: 1,
        accounts: vec![(addr(2), record(3))],
        storage: vec![
            ((addr(2), word(7)), word(0x11)),
            ((addr(2), Word { bytes: derived.bytes.clone() }), word(0x22)),
        ],
    };
    let (store, reports) = digest_config(&config, &vec![Some(mapping_layout)], &snapshot).unwrap();
    assert_eq!(reports[0].failure, None);
    assert_eq!(reports[0].skipped, 0);
    assert_eq!(store.storage_list().len(), 2);
    for entry in store.storage_list().iter() {
        assert!(store.get_account(&entry.0 .0).is_some());
    }
    let got = store.get_storage(&addr(2), &derived).unwrap();
    assert_eq!(got.bytes, word(0x22).bytes);
    let declared = store.get_storage(&addr(2), &word(7)).unwrap();
    assert_eq!(declared.bytes, word(0x11).bytes);
    assert!(store.get_storage(&addr(1), &word(7)).is_none());
}

/// An address-width key pads with twelve zero bytes before the twenty key
/// bytes, in that order.
#[test]
fn address_width_key_padding() {
    let key_hex = "0x0101010101010101010101010101010101010101";
    let declared = Word::from_decimal("5").unwrap();
    let derived = derive_entry_slot(key_hex, 20, &declared).unwrap();

    let mut input = vec![0u8; 12];
    input.extend_from_slice(&[1u8; 20]);
    input.extend_from_slice(&[0u8; 31]);
    input.push(5);
    let expected = revm::primitives::keccak256(input.as_slice()).0.to_vec();
    assert_eq!(derived.bytes, expected);
}

/// A mapping label with no configured keys produces zero requests, silently.
#[test]
fn unconfigured_mapping_produces_no_requests() {
    let layout = StorageLayout {
        storage: vec![item("m", "3", "t_map")],
        types: vec![
            ("t_map".to_string(), mapping_type("t_k", "t_v")),
            ("t_k".to_string(), simple_type("32")),
            ("t_v".to_string(), simple_type("32")),
        ],
    };
    let cd = contract(1, vec![]);
    let (skipped, slots) = derive_item(&layout.storage[0], &layout, &cd).unwrap();
    assert!(!skipped);
    assert_eq!(slots.len(), 0);
}
