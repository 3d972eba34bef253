//! Serialization round trips, byte-level parity with the reference
//! consensus encoder, and the hex codec.

use hashlock::address::{derive_address, Network};
use hashlock::errors::Error;
use hashlock::hexstr::{bytes_to_hex, hex_to_bytes};
use hashlock::tx::{
    build_funding_transaction, build_spending_transaction, deserialize_tx, serialize_tx,
    transaction_id, Transaction, TxIn, TxOut,
};

fn sample_script() -> Vec<u8> {
    hashlock::script::generate_redeem_script(&vec![7u8, 7, 7]).unwrap()
}

fn assert_tx_eq(a: &Transaction, b: &Transaction) {
    assert_eq!(a.version, b.version);
    assert_eq!(a.lock_time, b.lock_time);
    assert_eq!(a.input.len(), b.input.len());
    assert_eq!(a.output.len(), b.output.len());
    for (x, y) in a.input.iter().zip(b.input.iter()) {
        assert_eq!(x.prev_txid, y.prev_txid);
        assert_eq!(x.prev_vout, y.prev_vout);
        assert_eq!(x.script_sig, y.script_sig);
        assert_eq!(x.sequence, y.sequence);
    }
    for (x, y) in a.output.iter().zip(b.output.iter()) {
        assert_eq!(x.value, y.value);
        assert_eq!(x.script_pubkey, y.script_pubkey);
    }
}

#[test]
fn test_tx_round_trip() {
    let addr = derive_address(&sample_script(), Network::Testnet).unwrap();
    let funding = build_funding_transaction(&addr, 50000);
    let back = deserialize_tx(&serialize_tx(&funding)).unwrap();
    assert_tx_eq(&funding, &back);

    let witness = hashlock::script::build_redeem_witness(&vec![1u8, 2, 3]).unwrap();
    let spending = build_spending_transaction(&funding, &witness, 10000, &addr).unwrap();
    let back2 = deserialize_tx(&serialize_tx(&spending)).unwrap();
    assert_tx_eq(&spending, &back2);
}

#[test]
fn test_tx_round_trip_long_script() {
    // A script over 252 bytes exercises the marker form of the count
    // encoding for the input's script length.
    let addr = derive_address(&sample_script(), Network::Testnet).unwrap();
    let funding = build_funding_transaction(&addr, 600);
    let long_preimage: Vec<u8> = (0..300u32).map(|i| (i % 251) as u8).collect();
    let witness = hashlock::script::build_redeem_witness(&long_preimage).unwrap();
    let spending = build_spending_transaction(&funding, &witness, 600, &addr).unwrap();
    let back = deserialize_tx(&serialize_tx(&spending)).unwrap();
    assert_tx_eq(&spending, &back);
}

#[test]
fn test_serialize_matches_reference() {
    // The assembler's bytes are identical to the reference consensus
    // encoder's bytes for the same logical transaction.
    let addr = derive_address(&sample_script(), Network::Testnet).unwrap();
    let funding = build_funding_transaction(&addr, 50000);
    let witness = hashlock::script::build_redeem_witness(&vec![9u8; 40]).unwrap();
    let spending = build_spending_transaction(&funding, &witness, 20000, &addr).unwrap();

    for (tx, zero_inputs) in [(&funding, true), (&spending, false)] {
        let reference = bitcoin::blockdata::transaction::Transaction {
            version: tx.version as i32,
            lock_time: tx.lock_time,
            input: tx
                .input
                .iter()
                .map(|i| bitcoin::blockdata::transaction::TxIn {
                    previous_output: bitcoin::blockdata::transaction::OutPoint {
                        txid: <bitcoin::Txid as bitcoin::hashes::Hash>::from_slice(
                            i.prev_txid.as_slice(),
                        )
                        .unwrap(),
                        vout: i.prev_vout,
                    },
                    script_sig: bitcoin::blockdata::script::Script::from(i.script_sig.clone()),
                    sequence: i.sequence,
                    witness: Vec::new(),
                })
                .collect(),
            output: tx
                .output
                .iter()
                .map(|o| bitcoin::blockdata::transaction::TxOut {
                    value: o.value,
                    script_pubkey: bitcoin::blockdata::script::Script::from(
                        o.script_pubkey.clone(),
                    ),
                })
                .collect(),
        };
        let reference_bytes = bitcoin::consensus::encode::serialize(&reference);
        let ours = serialize_tx(tx);
        if zero_inputs {
            // For a transaction without inputs the reference encoder inserts
            // the extended-format marker bytes after the version to keep the
            // encoding unambiguous; the canonical base format omits them.
            assert_eq!(&reference_bytes[4..6], &[0x00, 0x01]);
            assert_eq!(ours[..4], reference_bytes[..4]);
            assert_eq!(ours[4..], reference_bytes[6..]);
        } else {
            assert_eq!(ours, reference_bytes);
        }
        // The identifier is the double hash the reference computes.
        let reference_txid: [u8; 32] =
            <bitcoin::Txid as bitcoin::hashes::Hash>::into_inner(reference.txid());
        assert_eq!(transaction_id(tx), reference_txid.to_vec());
    }
}

#[test]
fn test_deserialize_rejects_malformed() {
    // Truncated stream.
    assert_eq!(
        deserialize_tx(&vec![1u8, 0, 0]).unwrap_err(),
        Error::InvalidEncoding
    );
    // Trailing garbage after a valid transaction.
    let addr = derive_address(&sample_script(), Network::Testnet).unwrap();
    let mut bytes = serialize_tx(&build_funding_transaction(&addr, 1));
    bytes.push(0);
    assert_eq!(deserialize_tx(&bytes).unwrap_err(), Error::InvalidEncoding);
    // A non-minimal count encoding is refused.
    let non_minimal = vec![
        1u8, 0, 0, 0, // version
        0xfd, 0x00, 0x00, // input count 0, needlessly wide
        0x00, // output count
        0, 0, 0, 0, // lock time
    ];
    assert_eq!(
        deserialize_tx(&non_minimal).unwrap_err(),
        Error::InvalidEncoding
    );
}

#[test]
fn test_hex_codec() {
    let bytes = vec![0x00u8, 0x01, 0xab, 0xff];
    let text = bytes_to_hex(&bytes);
    assert_eq!(text, "0001abff");
    assert_eq!(text, hex::encode(&bytes));
    assert_eq!(hex_to_bytes(&text).unwrap(), bytes);
    // Uppercase digits decode too.
    assert_eq!(hex_to_bytes("0001ABFF").unwrap(), bytes);
    // Odd length and non-digit characters are refused.
    assert_eq!(hex_to_bytes("abc").unwrap_err(), Error::InvalidHexEncoding);
    assert_eq!(hex_to_bytes("zz").unwrap_err(), Error::InvalidHexEncoding);
    assert_eq!(hex_to_bytes("").unwrap(), Vec::<u8>::new());
}

#[test]
fn test_empty_transaction_round_trip() {
    let tx = Transaction {
        version: 2,
        lock_time: 77,
        input: Vec::new(),
        output: Vec::new(),
    };
    let bytes = serialize_tx(&tx);
    assert_eq!(bytes, vec![2u8, 0, 0, 0, 0, 0, 77, 0, 0, 0]);
    let back = deserialize_tx(&bytes).unwrap();
    assert_tx_eq(&tx, &back);
}

#[test]
fn test_input_fields_serialize_exactly() {
    let tx = Transaction {
        version: 1,
        lock_time: 0,
        input: vec![TxIn {
            prev_txid: vec![0xaa; 32],
            prev_vout: 3,
            script_sig: vec![0x51],
            sequence: 0xfffffffe,
        }],
        output: vec![TxOut {
            value: 256,
            script_pubkey: vec![0x00, 0x01, 0xcc],
        }],
    };
    let hexpect = format!(
        "01000000{}{}{}",
        "01",
        format!(
            "{}{}{}{}{}",
            "aa".repeat(32),
            "03000000",
            "01",
            "51",
            "feffffff"
        ),
        format!("01{}{}{}{}", "0001000000000000", "03", "0001cc", "00000000")
    );
    assert_eq!(bytes_to_hex(&serialize_tx(&tx)), hexpect);
}
