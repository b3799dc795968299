use quic_transport_qa::env::Environment;
use quic_transport_qa::identity::{parse_seed, Identity};
use quic_transport_qa::programs::wan_server::{server_identity, SeedError};
use tentacle::secio::SecioKeyPair;

const ORDER: &str = "fffffffffffffffffffffffffffffffebaaedce6af48a03bbfd25e8cd0364141";

fn seeded(seed: &str) -> Environment {
    let mut e = Environment::empty();
    e.capture("QA_SERVER_SEED".to_string(), seed.to_string(), None);
    e
}

#[test]
fn seeds_are_pairs_of_digits() {
    let text = "000102030405060708090a0b0c0d0e0f101112131415161718191A1B1C1D1E1F";
    let expected: Vec<u8> = (0..32).collect();
    assert_eq!(parse_seed(text).unwrap().to_vec(), expected);
    assert_eq!(parse_seed(&"ff".repeat(32)).unwrap(), [255u8; 32]);
    assert_eq!(parse_seed(""), None);
    assert_eq!(parse_seed(&"0".repeat(63)), None);
    assert_eq!(parse_seed(&"0".repeat(65)), None);
    assert_eq!(parse_seed(&"-1".repeat(32)), None);
    assert_eq!(parse_seed(&"+f".repeat(32)), None);
    assert_eq!(parse_seed(&"f+".repeat(32)), None);
    assert_eq!(parse_seed(&"0g".repeat(32)), None);
    assert_eq!(parse_seed(&"é".repeat(32)), None);
}

#[test]
fn characters_across_two_bytes_are_no_digits() {
    let euro = format!("\u{20ac}{}", "0".repeat(61));
    assert_eq!(euro.len(), 64);
    assert_eq!(parse_seed(&euro), None);
    let inside = format!("a{}{}", "é", "0".repeat(61));
    assert_eq!(inside.len(), 64);
    assert_eq!(parse_seed(&inside), None);
    let last = format!("{}é", "0".repeat(62));
    assert_eq!(last.len(), 64);
    assert_eq!(parse_seed(&last), None);
}

#[test]
fn a_seed_fixes_the_peer_id() {
    let id = Identity::from_seed([7u8; 32]).unwrap();
    let key = SecioKeyPair::secp256k1_raw_key([7u8; 32]).unwrap();
    assert_eq!(id.peer_id, key.peer_id().to_base58());
    assert_eq!(id.key.peer_id(), key.peer_id());
    let again = server_identity(&seeded(&"07".repeat(32))).ok().unwrap();
    assert_eq!(again.peer_id, id.peer_id);
    assert_ne!(Identity::random().peer_id, Identity::random().peer_id);
}

#[test]
fn only_secrets_below_the_order_are_keys() {
    assert!(Identity::from_seed([0u8; 32]).is_none());
    assert!(Identity::from_seed([0xFF; 32]).is_none());
    let order = parse_seed(ORDER).unwrap();
    assert!(Identity::from_seed(order).is_none());
    let mut below = order;
    below[31] -= 1;
    assert!(Identity::from_seed(below).is_some());
    let mut one = [0u8; 32];
    one[31] = 1;
    assert!(Identity::from_seed(one).is_some());
}

#[test]
fn identities_that_an_environment_asks_for() {
    assert!(server_identity(&Environment::empty()).is_ok());
    assert!(server_identity(&seeded("no seed")).is_ok());
    assert_eq!(server_identity(&seeded(&"00".repeat(32))).err(), Some(SeedError::NotASecret));
    let cut = format!("a{}{}", "é", "0".repeat(61));
    assert!(server_identity(&seeded(&cut)).is_ok());
    assert!(server_identity(&seeded(&"+f".repeat(32))).is_ok());
    assert!(Identity::asked(None).is_some());
    assert!(Identity::asked(Some("short")).is_some());
    assert!(Identity::asked(Some(&"00".repeat(32))).is_none());
}
