//! Tests of initialization, the tag codec and the header codec.

use btc_light_client::codec::{block_hash, BlockHeader};
use btc_light_client::errors::LightClientError;
use btc_light_client::msg::{instantiate, ContractMsg, InstantiateMsg};
use btc_light_client::pow::{meets_target, Network};
use btc_light_client::tag::{decode_hex, decode_tag};

fn msg_with_tag(tag: &str, depth: u64) -> InstantiateMsg {
    InstantiateMsg {
        network: Network::Regtest,
        babylon_tag: tag.to_string(),
        btc_confirmation_depth: depth,
        checkpoint_finalization_timeout: 100,
        notify_cosmos_zone: false,
        btc_staking_code_id: None,
        admin: None,
    }
}

#[test]
fn test_deserialize_btc_header() {
    let btc_header_hex = "00400720b2559c9eb13821d6df53ffab9ddf3a645c559f030cac050000000000000000001ff22ffaa13c41df6aebc4b9b09faf328748c3a45772b6a4c4da319119fd5be3b53a1964817606174cc4c4b0";
    let btc_header_bytes = hex::decode(btc_header_hex).unwrap();
    let btc_header = BlockHeader::decode(&btc_header_bytes).unwrap();
    // re-encoding reproduces the original bytes
    assert_eq!(btc_header.encode(), btc_header_bytes);
}

#[test]
fn instantiate_works() {
    let msg = InstantiateMsg {
        network: Network::Regtest,
        babylon_tag: "01020304".to_string(),
        btc_confirmation_depth: 10,
        checkpoint_finalization_timeout: 100,
        notify_cosmos_zone: false,
        btc_staking_code_id: None,
        admin: None,
    };
    let cfg = instantiate(&msg).unwrap();
    assert_eq!(cfg.babylon_tag, vec![0x1u8, 0x2, 0x3, 0x4]);
    assert_eq!(cfg.btc_confirmation_depth, 10);
    assert_eq!(cfg.checkpoint_finalization_timeout, 100);
    assert!(!cfg.notify_cosmos_zone);
}

#[test]
fn tag_decodes_to_expected_bytes() {
    let b = decode_tag("aabbccdd").unwrap();
    assert_eq!(b, vec![0xaau8, 0xbb, 0xcc, 0xdd]);
    let b = decode_tag("AABBCC01").unwrap();
    assert_eq!(b, vec![0xaau8, 0xbb, 0xcc, 0x01]);
}

#[test]
fn tag_wrong_length_rejected() {
    assert_eq!(
        decode_tag("aabbccd").unwrap_err(),
        LightClientError::InvalidTagEncoding
    );
    assert_eq!(
        decode_tag("aabbccdd00").unwrap_err(),
        LightClientError::InvalidTagEncoding
    );
    assert_eq!(decode_tag("").unwrap_err(), LightClientError::InvalidTagEncoding);
}

#[test]
fn tag_non_hex_rejected() {
    assert_eq!(
        decode_tag("0102030g").unwrap_err(),
        LightClientError::InvalidTagEncoding
    );
    assert!(instantiate(&msg_with_tag("0102030g", 10)).is_err());
}

#[test]
fn instantiate_rejects_zero_depth() {
    assert_eq!(
        instantiate(&msg_with_tag("01020304", 0)).unwrap_err(),
        LightClientError::ConfigError
    );
}

#[test]
fn validate_matches_instantiate() {
    assert!(msg_with_tag("01020304", 1).validate().is_ok());
    assert!(msg_with_tag("010203", 1).validate().is_err());
    assert!(msg_with_tag("01020304", 0).validate().is_err());
    assert_eq!(
        msg_with_tag("01020304", 1).babylon_tag_to_bytes().unwrap(),
        vec![1u8, 2, 3, 4]
    );
}

#[test]
fn general_hex_decoding() {
    assert_eq!(decode_hex("00ff10").unwrap(), vec![0x00u8, 0xff, 0x10]);
    assert_eq!(decode_hex("").unwrap(), Vec::<u8>::new());
    assert!(decode_hex("0").is_err());
    assert!(decode_hex("zz").is_err());
}

#[test]
fn genesis_header_round_trip_and_hash() {
    // the best-known 80-byte header: the original genesis block
    let genesis_hex = "0100000000000000000000000000000000000000000000000000000000000000000000003ba3edfd7a7b12b27ac72c3e67768f617fc81bc3888a51323a9fb8aa4b1e5e4a29ab5f49ffff001d1dac2b7c";
    let raw = hex::decode(genesis_hex).unwrap();
    let h = BlockHeader::decode(&raw).unwrap();
    assert_eq!(h.encode(), raw);
    let hash = block_hash(&h);
    // its hash, raw internal byte order
    let expected =
        hex::decode("6fe28c0ab6f1b372c1a6a246ae63f74f931e8365e15a089c68d6190000000000").unwrap();
    assert_eq!(hash, expected);
    // and it meets its own compact target on the main network
    assert!(meets_target(&hash, h.bits, Network::Mainnet));
}

#[test]
fn short_header_is_malformed() {
    assert!(BlockHeader::decode(&[0u8; 79]).is_none());
    assert!(BlockHeader::decode(&[0u8; 81]).is_none());
    assert!(BlockHeader::decode(&[]).is_none());
}
