use legacy_codec::primitives::read_i32_le;
use legacy_codec::primitives::read_u32_le;
use legacy_codec::primitives::read_u64_le;
use legacy_codec::primitives::write_i32_le;
use legacy_codec::primitives::write_u32_le;
use legacy_codec::primitives::write_u64_le;
use legacy_codec::varint::decode_varint;
use legacy_codec::varint::encode_varint;
use legacy_codec::BitcoinError;
use legacy_codec::BitcoinSerialize;
use legacy_codec::LegacyTransaction;
use legacy_codec::OutPoint;
use legacy_codec::TxInput;
use legacy_codec::TxOutput;

fn sample_tx() -> LegacyTransaction {
    let mut txid = [0u8; 32];
    for (i, b) in txid.iter_mut().enumerate() {
        *b = i as u8;
    }
    LegacyTransaction::builder()
        .version(-2)
        .add_input(TxInput {
            previous_output: OutPoint { txid, vout: 7 },
            script_sig: vec![0x51, 0x52],
            sequence: 0xFFFF_FFFF,
        })
        .add_output(TxOutput {
            value: 5000,
            script_pubkey: vec![0x76, 0xA9],
        })
        .add_output(TxOutput {
            value: 0,
            script_pubkey: vec![],
        })
        .lock_time(123_456)
        .build()
}

fn sample_tx_bytes() -> Vec<u8> {
    let mut expected: Vec<u8> = vec![0xFE, 0xFF, 0xFF, 0xFF]; // version -2
    expected.push(0x01); // input count
    for i in 0..32u8 {
        expected.push(i); // txid
    }
    expected.extend_from_slice(&[0x07, 0x00, 0x00, 0x00]); // vout
    expected.extend_from_slice(&[0x02, 0x51, 0x52]); // script_sig
    expected.extend_from_slice(&[0xFF, 0xFF, 0xFF, 0xFF]); // sequence
    expected.push(0x02); // output count
    expected.extend_from_slice(&[0x88, 0x13, 0, 0, 0, 0, 0, 0]); // value 5000
    expected.extend_from_slice(&[0x02, 0x76, 0xA9]); // script_pubkey
    expected.extend_from_slice(&[0, 0, 0, 0, 0, 0, 0, 0]); // value 0
    expected.push(0x00); // empty script_pubkey
    expected.extend_from_slice(&[0x40, 0xE2, 0x01, 0x00]); // lock_time 123456
    expected
}

#[test]
fn serialize_matches_wire_layout() {
    assert_eq!(sample_tx().serialize(), sample_tx_bytes());
}

#[test]
fn round_trip_built_transaction() {
    let tx = sample_tx();
    let encoded = tx.serialize();
    let decoded = LegacyTransaction::decode(&encoded).expect("valid encoding must decode");
    assert_eq!(decoded, tx);
}

#[test]
fn round_trip_minimal_transaction() {
    let tx = LegacyTransaction::builder().build();
    let encoded = tx.serialize();
    let decoded = LegacyTransaction::decode(&encoded).expect("valid encoding must decode");
    assert_eq!(decoded, tx);
}

#[test]
fn decode_minimal_ten_bytes() {
    let data = [
        0x01, 0x00, 0x00, 0x00, // version 1
        0x00, // no inputs
        0x00, // no outputs
        0x00, 0x00, 0x00, 0x00, // lock_time 0
    ];
    let tx = LegacyTransaction::decode(&data).expect("minimal transaction must decode");
    assert_eq!(tx.version, 1);
    assert!(tx.inputs.is_empty());
    assert!(tx.outputs.is_empty());
    assert_eq!(tx.lock_time, 0);
    assert_eq!(tx.serialize(), data.to_vec());
}

#[test]
fn decode_nine_bytes_fails() {
    let data = [0x01, 0x00, 0x00, 0x00, 0x00, 0x00, 0x00, 0x00, 0x00];
    let err = LegacyTransaction::decode(&data).unwrap_err();
    assert!(matches!(err, BitcoinError::InvalidTransaction));
}

#[test]
fn every_truncation_fails() {
    let encoded = sample_tx().serialize();
    for k in 0..encoded.len() {
        let err = LegacyTransaction::decode(&encoded[..k]).unwrap_err();
        assert!(matches!(err, BitcoinError::InvalidTransaction), "prefix of {k} bytes");
    }
}

#[test]
fn trailing_byte_fails() {
    for extra in [0x00u8, 0xFF] {
        let mut encoded = sample_tx().serialize();
        encoded.push(extra);
        let err = LegacyTransaction::decode(&encoded).unwrap_err();
        assert!(matches!(err, BitcoinError::InvalidTransaction));
    }
}

#[test]
fn varint_boundary_encodings() {
    assert_eq!(encode_varint(0x00), vec![0x00]);
    assert_eq!(encode_varint(0xFC), vec![0xFC]);
    assert_eq!(encode_varint(0xFD), vec![0xFD, 0xFD, 0x00]);
    assert_eq!(encode_varint(0xFFFF), vec![0xFD, 0xFF, 0xFF]);
    assert_eq!(encode_varint(0x1_0000), vec![0xFE, 0x00, 0x00, 0x01, 0x00]);
    assert_eq!(encode_varint(0xFFFF_FFFF), vec![0xFE, 0xFF, 0xFF, 0xFF, 0xFF]);
    assert_eq!(
        encode_varint(0x1_0000_0000),
        vec![0xFF, 0x00, 0x00, 0x00, 0x00, 0x01, 0x00, 0x00, 0x00]
    );
    assert_eq!(
        encode_varint(u64::MAX),
        vec![0xFF, 0xFF, 0xFF, 0xFF, 0xFF, 0xFF, 0xFF, 0xFF, 0xFF]
    );
}

#[test]
fn varint_boundary_round_trips() {
    for v in [
        0u64,
        0xFC,
        0xFD,
        0xFFFF,
        0x1_0000,
        0xFFFF_FFFF,
        0x1_0000_0000,
        u64::MAX,
    ] {
        let e = encode_varint(v);
        let (got, used) = decode_varint(&e, 0).expect("encoding must decode");
        assert_eq!(got, v);
        assert_eq!(used, e.len());
    }
}

#[test]
fn varint_permissive_decode() {
    // A small value in each wider form still decodes, though encode would
    // never produce these.
    let nine = [0xFF, 0x05, 0, 0, 0, 0, 0, 0, 0];
    assert_eq!(decode_varint(&nine, 0).unwrap(), (5, 9));
    let five = [0xFE, 0x05, 0, 0, 0];
    assert_eq!(decode_varint(&five, 0).unwrap(), (5, 5));
    let three = [0xFD, 0x05, 0];
    assert_eq!(decode_varint(&three, 0).unwrap(), (5, 3));
}

#[test]
fn varint_truncated_fails() {
    assert!(matches!(
        decode_varint(&[], 0),
        Err(BitcoinError::TruncatedBuffer)
    ));
    assert!(matches!(
        decode_varint(&[0xFD, 0x01], 0),
        Err(BitcoinError::TruncatedBuffer)
    ));
    assert!(matches!(
        decode_varint(&[0xFE, 1, 2, 3], 0),
        Err(BitcoinError::TruncatedBuffer)
    ));
    assert!(matches!(
        decode_varint(&[0xFF, 1, 2, 3, 4, 5, 6, 7], 0),
        Err(BitcoinError::TruncatedBuffer)
    ));
}

#[test]
fn varint_at_offset() {
    let data = [0xAA, 0xFD, 0x34, 0x12];
    assert_eq!(decode_varint(&data, 1).unwrap(), (0x1234, 3));
    assert_eq!(decode_varint(&data, 0).unwrap(), (0xAA, 1));
}

#[test]
fn read_fixed_width_values() {
    let data = [0x78, 0x56, 0x34, 0x12, 0xFF];
    assert_eq!(read_u32_le(&data, 0).unwrap(), 0x1234_5678);
    assert_eq!(read_u32_le(&data, 1).unwrap(), 0xFF12_3456);
    let neg = [0xFE, 0xFF, 0xFF, 0xFF];
    assert_eq!(read_i32_le(&neg, 0).unwrap(), -2);
    let big = [0x01, 0x02, 0x03, 0x04, 0x05, 0x06, 0x07, 0x08];
    assert_eq!(read_u64_le(&big, 0).unwrap(), 0x0807_0605_0403_0201);
}

#[test]
fn read_out_of_bounds_fails() {
    let data = [0x01, 0x02, 0x03];
    assert!(matches!(
        read_u32_le(&data, 0),
        Err(BitcoinError::TruncatedBuffer)
    ));
    assert!(matches!(
        read_i32_le(&data, 0),
        Err(BitcoinError::TruncatedBuffer)
    ));
    assert!(matches!(
        read_u64_le(&data, 0),
        Err(BitcoinError::TruncatedBuffer)
    ));
    let four = [0x01, 0x02, 0x03, 0x04];
    assert!(matches!(
        read_u32_le(&four, 1),
        Err(BitcoinError::TruncatedBuffer)
    ));
}

#[test]
fn write_fixed_width_values() {
    let mut out = Vec::new();
    write_u32_le(&mut out, 0x1234_5678);
    assert_eq!(out, vec![0x78, 0x56, 0x34, 0x12]);
    let mut out = Vec::new();
    write_i32_le(&mut out, -1);
    assert_eq!(out, vec![0xFF, 0xFF, 0xFF, 0xFF]);
    let mut out = Vec::new();
    write_i32_le(&mut out, 1);
    assert_eq!(out, vec![0x01, 0x00, 0x00, 0x00]);
    let mut out = Vec::new();
    write_u64_le(&mut out, 0x0807_0605_0403_0201);
    assert_eq!(out, vec![0x01, 0x02, 0x03, 0x04, 0x05, 0x06, 0x07, 0x08]);
}

#[test]
fn builder_defaults_and_chaining() {
    let b = LegacyTransaction::builder();
    assert_eq!(b.version, 1);
    assert_eq!(b.lock_time, 0);
    assert!(b.inputs.is_empty());
    assert!(b.outputs.is_empty());
    let tx = b.version(3).lock_time(99).build();
    assert_eq!(tx.version, 3);
    assert_eq!(tx.lock_time, 99);
    assert!(tx.inputs.is_empty());
    assert!(tx.outputs.is_empty());
}

#[test]
fn decode_accepts_non_minimal_count_fields() {
    // Both count fields in the 3-byte form for zero: decode accepts them,
    // and re-encoding produces the minimal 10-byte form.
    let data = [
        0x01, 0x00, 0x00, 0x00, // version 1
        0xFD, 0x00, 0x00, // input count 0, wide form
        0xFD, 0x00, 0x00, // output count 0, wide form
        0x00, 0x00, 0x00, 0x00, // lock_time 0
    ];
    let tx = LegacyTransaction::decode(&data).expect("wide counts must decode");
    assert_eq!(tx.version, 1);
    assert!(tx.inputs.is_empty());
    assert!(tx.outputs.is_empty());
    let minimal = [0x01, 0x00, 0x00, 0x00, 0x00, 0x00, 0x00, 0x00, 0x00, 0x00];
    assert_eq!(tx.serialize(), minimal.to_vec());
}

#[test]
fn decode_script_longer_than_buffer_fails() {
    // A declared script length far past the end of the buffer.
    let mut data: Vec<u8> = vec![0x01, 0x00, 0x00, 0x00]; // version
    data.push(0x01); // one input
    data.extend_from_slice(&[0u8; 32]); // txid
    data.extend_from_slice(&[0, 0, 0, 0]); // vout
    data.push(0xFE); // script length 0xFFFFFFFF
    data.extend_from_slice(&[0xFF, 0xFF, 0xFF, 0xFF]);
    let err = LegacyTransaction::decode(&data).unwrap_err();
    assert!(matches!(err, BitcoinError::InvalidTransaction));
}
