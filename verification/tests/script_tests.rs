//! Script building, hash-lock evaluation, address determinism and
//! injectivity on concrete values, and the end-to-end scenario.

use hashlock::address::{address_text, derive_address, parse_address, Network};
use hashlock::errors::Error;
use hashlock::hexstr::{bytes_to_hex, hex_to_bytes};
use hashlock::script::{
    build_locking_script, build_redeem_witness, evaluate_hash_lock, generate_redeem_script,
    script_from_hex, script_to_hex, serialize_script,
};
use hashlock::tx::{build_funding_transaction, build_spending_transaction, transaction_id};

fn digest_of(data: &[u8]) -> Vec<u8> {
    let h = <bitcoin::hashes::sha256::Hash as bitcoin::hashes::Hash>::hash(data);
    <bitcoin::hashes::sha256::Hash as bitcoin::hashes::Hash>::into_inner(h).to_vec()
}

#[test]
fn test_witness_satisfies_lock() {
    let preimage = vec![0x42u8, 0x74, 0x72];
    let witness = build_redeem_witness(&preimage).unwrap();
    let lock = build_locking_script(&digest_of(&preimage)).unwrap();
    assert_eq!(evaluate_hash_lock(&witness, &lock), Ok(true));

    // Any other preimage fails against the same lock.
    let other = vec![0x42u8, 0x74, 0x73];
    let other_witness = build_redeem_witness(&other).unwrap();
    assert_eq!(evaluate_hash_lock(&other_witness, &lock), Ok(false));

    // And the original witness fails against the other preimage's lock.
    let other_lock = build_locking_script(&digest_of(&other)).unwrap();
    assert_eq!(evaluate_hash_lock(&witness, &other_lock), Ok(false));
}

#[test]
fn test_witness_forms() {
    // One byte: direct-length push.
    let w1 = build_redeem_witness(&vec![9u8]).unwrap();
    assert_eq!(w1, vec![0x01, 0x09]);
    // 100 bytes: one-byte length marker.
    let p2 = vec![5u8; 100];
    let w2 = build_redeem_witness(&p2).unwrap();
    assert_eq!(w2[0], 0x4c);
    assert_eq!(w2[1], 100);
    assert_eq!(&w2[2..], p2.as_slice());
    // 300 bytes: two-byte little-endian length marker.
    let p3 = vec![6u8; 300];
    let w3 = build_redeem_witness(&p3).unwrap();
    assert_eq!(w3[0], 0x4d);
    assert_eq!(w3[1], 0x2c);
    assert_eq!(w3[2], 0x01);
    assert_eq!(&w3[3..], p3.as_slice());
    // Each still satisfies its own lock.
    for (p, w) in [(vec![9u8], w1), (p2, w2), (p3, w3)] {
        let lock = build_locking_script(&digest_of(&p)).unwrap();
        assert_eq!(evaluate_hash_lock(&w, &lock), Ok(true));
    }
}

#[test]
fn test_script_builder_errors() {
    assert_eq!(
        build_redeem_witness(&Vec::new()).unwrap_err(),
        Error::EmptyPreimage
    );
    assert_eq!(
        build_redeem_witness(&vec![0u8; 521]).unwrap_err(),
        Error::OversizedInput
    );
    assert_eq!(
        build_locking_script(&vec![1u8; 31]).unwrap_err(),
        Error::InvalidDigestLength
    );
    // The lock builder enforces the same boundary as the redeem side, so
    // no lock is ever built whose witness could not be.
    assert_eq!(
        generate_redeem_script(&vec![0u8; 521]).unwrap_err(),
        Error::OversizedInput
    );
    assert_eq!(
        generate_redeem_script(&Vec::new()).unwrap_err(),
        Error::EmptyPreimage
    );
    assert_eq!(
        derive_address(&Vec::new(), Network::Testnet).unwrap_err(),
        Error::UnsupportedScript
    );
    assert_eq!(
        derive_address(&vec![0u8; 10001], Network::Testnet).unwrap_err(),
        Error::OversizedInput
    );
    // Malformed redeem data is rejected by the evaluator.
    let lock = build_locking_script(&digest_of(&[1u8])).unwrap();
    assert_eq!(
        evaluate_hash_lock(&vec![0x4c], &lock).unwrap_err(),
        Error::InvalidEncoding
    );
    // A non-hash-lock script is rejected too.
    let witness = build_redeem_witness(&vec![1u8]).unwrap();
    assert_eq!(
        evaluate_hash_lock(&witness, &vec![0x51]).unwrap_err(),
        Error::InvalidEncoding
    );
}

#[test]
fn test_script_hex_round_trip() {
    let lock = generate_redeem_script(&vec![3u8, 1, 4]).unwrap();
    let text = script_to_hex(&lock);
    assert_eq!(script_from_hex(&text).unwrap(), lock);
    assert_eq!(serialize_script(&lock), lock);
}

#[test]
fn test_address_deterministic_and_injective() {
    let s1 = generate_redeem_script(&vec![1u8]).unwrap();
    let s2 = generate_redeem_script(&vec![2u8]).unwrap();
    let a1 = derive_address(&s1, Network::Testnet).unwrap();
    let a1_again = derive_address(&s1, Network::Testnet).unwrap();
    let a2 = derive_address(&s2, Network::Testnet).unwrap();
    // Same script and network: identical text.
    assert_eq!(address_text(&a1), address_text(&a1_again));
    // Distinct scripts: distinct text.
    assert_ne!(address_text(&a1), address_text(&a2));
    // Distinct networks give distinct prefixes for one script.
    let main = derive_address(&s1, Network::Mainnet).unwrap();
    assert!(address_text(&main).starts_with("bc1"));
    assert!(address_text(&a1).starts_with("tb1"));
}

#[test]
fn test_parse_address() {
    let script = generate_redeem_script(&vec![8u8, 8]).unwrap();
    let addr = derive_address(&script, Network::Mainnet).unwrap();
    let text = address_text(&addr);
    let parsed = parse_address(&text).unwrap();
    assert_eq!(parsed.network, Network::Mainnet);
    assert_eq!(parsed.program, addr.program);
    // A damaged checksum is malformed.
    let mut broken = text.clone();
    broken.pop();
    broken.push('q');
    assert_eq!(parse_address(&broken).unwrap_err(), Error::MalformedAddress);
    assert_eq!(parse_address("not an address").unwrap_err(), Error::MalformedAddress);
}

#[test]
fn test_end_to_end_flow() {
    // The documented scenario, end to end.
    let preimage = hex_to_bytes("427472757374204275696c64657273").unwrap();
    let digest = digest_of(&preimage);
    let lock = build_locking_script(&digest).unwrap();
    assert_eq!(lock, generate_redeem_script(&preimage).unwrap());
    // The locking script embeds exactly the hash of the decoded preimage.
    assert_eq!(bytes_to_hex(&lock), format!("a820{}87", bytes_to_hex(&digest)));

    let address = derive_address(&lock, Network::Testnet).unwrap();
    let text1 = address_text(&address);
    let text2 = address_text(&derive_address(&lock, Network::Testnet).unwrap());
    assert_eq!(text1, text2);

    let funding = build_funding_transaction(&address, 50000);
    assert_eq!(funding.output.len(), 1);
    assert_eq!(funding.output[0].value, 50000);
    assert_eq!(
        funding.output[0].script_pubkey,
        hashlock::address::witness_script_pubkey(&address)
    );

    let witness = build_redeem_witness(&preimage).unwrap();
    let spending = build_spending_transaction(&funding, &witness, 10000, &address).unwrap();
    assert_eq!(spending.input.len(), 1);
    assert_eq!(spending.input[0].prev_txid, transaction_id(&funding));
    assert_eq!(spending.input[0].prev_vout, 0);
    assert_eq!(spending.output[0].value, 10000);
    assert_eq!(spending.output[1].value, 40000);
    // The change returns to the address's own locking script.
    assert_eq!(
        spending.output[1].script_pubkey,
        funding.output[0].script_pubkey
    );
    // The revealed witness satisfies the original hash lock.
    assert_eq!(evaluate_hash_lock(&witness, &lock), Ok(true));
}
