use prost::encoding::{bytes, double, encode_key, encode_varint, int64, WireType};
use tap_escrow_manager::records::{IndexerFeesHourlyProtobuf, IndexerFeesProtobuf};
use tap_escrow_manager::wire::DecodeError;

fn fees(signer: &[u8], receiver: &[u8], fee_grt: f64) -> Vec<u8> {
    let mut buf: Vec<u8> = Vec::new();
    bytes::encode(1, &signer.to_vec(), &mut buf);
    bytes::encode(2, &receiver.to_vec(), &mut buf);
    double::encode(3, &fee_grt, &mut buf);
    buf
}

fn hour(timestamp: i64, records: &[Vec<u8>]) -> Vec<u8> {
    let mut buf: Vec<u8> = Vec::new();
    int64::encode(1, &timestamp, &mut buf);
    for record in records {
        bytes::encode(2, record, &mut buf);
    }
    buf
}

#[test]
fn fees_record_by_hand() {
    let mut payload = vec![0x0a, 0x02, 0xaa, 0xbb, 0x12, 0x03, 1, 2, 3, 0x19];
    payload.extend(1.5f64.to_le_bytes());
    let record = IndexerFeesProtobuf::decode(&payload).unwrap();
    assert_eq!(record.signer, vec![0xaa, 0xbb]);
    assert_eq!(record.receiver, vec![1, 2, 3]);
    assert_eq!(record.fee_grt_bits, 0x3ff8_0000_0000_0000);
    assert_eq!(f64::from_bits(record.fee_grt_bits), 1.5);
}

#[test]
fn fees_record_as_prost_writes_it() {
    let payload = fees(&[0x11; 20], &[0x22; 20], 0.000123);
    let record = IndexerFeesProtobuf::decode(&payload).unwrap();
    assert_eq!(
        record,
        IndexerFeesProtobuf {
            signer: vec![0x11; 20],
            receiver: vec![0x22; 20],
            fee_grt_bits: 0.000123f64.to_bits(),
        }
    );
}

#[test]
fn empty_payload_is_the_empty_record() {
    assert_eq!(
        IndexerFeesProtobuf::decode(&[]),
        Ok(IndexerFeesProtobuf { signer: vec![], receiver: vec![], fee_grt_bits: 0 })
    );
    assert_eq!(
        IndexerFeesHourlyProtobuf::decode(&[]),
        Ok(IndexerFeesHourlyProtobuf { timestamp: 0, aggregations: vec![] })
    );
}

#[test]
fn later_field_replaces_earlier_and_unknown_fields_are_passed_over() {
    let mut payload = fees(&[1; 20], &[2; 20], 1.0);
    // field 9, a varint; field 10, four bytes; field 11, a group
    payload.extend([0x48, 0x96, 0x01]);
    payload.extend([0x55, 1, 2, 3, 4]);
    payload.extend([0x5b, 0x08, 0x01, 0x5c]);
    payload.extend(fees(&[3; 20], &[], 2.0));
    let record = IndexerFeesProtobuf::decode(&payload).unwrap();
    assert_eq!(record.signer, vec![3; 20]);
    assert_eq!(record.receiver, Vec::<u8>::new());
    assert_eq!(record.fee_grt_bits, 2.0f64.to_bits());
}

#[test]
fn fees_record_errors() {
    // each kind of failure
    assert_eq!(IndexerFeesProtobuf::decode(&[0x80]), Err(DecodeError::InvalidVarint));
    assert_eq!(IndexerFeesProtobuf::decode(&[0x00]), Err(DecodeError::InvalidKey));
    assert_eq!(IndexerFeesProtobuf::decode(&[0x08, 0x01]), Err(DecodeError::WireTypeMismatch));
    assert_eq!(IndexerFeesProtobuf::decode(&[0x1a, 0x00]), Err(DecodeError::WireTypeMismatch));
    assert_eq!(IndexerFeesProtobuf::decode(&[0x0a, 0x05, 1]), Err(DecodeError::BufferUnderflow));
    assert_eq!(IndexerFeesProtobuf::decode(&[0x19, 0, 0, 0]), Err(DecodeError::BufferUnderflow));
    assert_eq!(IndexerFeesProtobuf::decode(&[0x24]), Err(DecodeError::UnexpectedEndGroup));
    assert_eq!(IndexerFeesProtobuf::decode(&vec![0x2b; 101]), Err(DecodeError::RecursionLimit));
    assert_eq!(IndexerFeesProtobuf::decode(&[0x0a]), Err(DecodeError::InvalidVarint));
}

#[test]
fn hour_by_hand() {
    let inner = fees(&[1; 20], &[2; 20], 3.0);
    let mut payload = vec![0x08, 0x80, 0x01, 0x12, inner.len() as u8];
    payload.extend(&inner);
    let hour = IndexerFeesHourlyProtobuf::decode(&payload).unwrap();
    assert_eq!(hour.timestamp, 128);
    assert_eq!(
        hour.aggregations,
        vec![IndexerFeesProtobuf {
            signer: vec![1; 20],
            receiver: vec![2; 20],
            fee_grt_bits: 3.0f64.to_bits(),
        }]
    );
}

#[test]
fn hour_as_prost_writes_it() {
    let records = vec![fees(&[1; 20], &[2; 20], 3.0), fees(&[4; 20], &[5; 20], 0.25), vec![]];
    let payload = hour(1_700_000_000_000, &records);
    let hour = IndexerFeesHourlyProtobuf::decode(&payload).unwrap();
    assert_eq!(hour.timestamp, 1_700_000_000_000);
    assert_eq!(hour.aggregations.len(), 3);
    assert_eq!(hour.aggregations[1].signer, vec![4; 20]);
    assert_eq!(hour.aggregations[1].receiver, vec![5; 20]);
    assert_eq!(f64::from_bits(hour.aggregations[1].fee_grt_bits), 0.25);
    assert_eq!(
        hour.aggregations[2],
        IndexerFeesProtobuf { signer: vec![], receiver: vec![], fee_grt_bits: 0 }
    );
}

#[test]
fn hour_timestamp_is_signed() {
    for timestamp in [-1i64, i64::MIN, i64::MAX, 0, -3_600_000] {
        let payload = hour(timestamp, &[]);
        assert_eq!(IndexerFeesHourlyProtobuf::decode(&payload).unwrap().timestamp, timestamp);
    }
}

#[test]
fn hour_errors() {
    assert_eq!(IndexerFeesHourlyProtobuf::decode(&[0x09]), Err(DecodeError::WireTypeMismatch));
    assert_eq!(IndexerFeesHourlyProtobuf::decode(&[0x10, 0x01]), Err(DecodeError::WireTypeMismatch));
    assert_eq!(IndexerFeesHourlyProtobuf::decode(&[0x08, 0x80]), Err(DecodeError::InvalidVarint));
    assert_eq!(IndexerFeesHourlyProtobuf::decode(&[0x12, 0x02, 0x0a]), Err(DecodeError::BufferUnderflow));
    // the embedded record must end where its length says
    assert_eq!(
        IndexerFeesHourlyProtobuf::decode(&[0x12, 0x02, 0x0a, 0x01, 0xff]),
        Err(DecodeError::BufferUnderflow)
    );
    assert_eq!(
        IndexerFeesHourlyProtobuf::decode(&[0x12, 0x01, 0x80]),
        Err(DecodeError::InvalidVarint)
    );
    assert_eq!(IndexerFeesHourlyProtobuf::decode(&[0x1c]), Err(DecodeError::UnexpectedEndGroup));
}

#[test]
fn embedded_record_is_one_level_deeper() {
    // an embedded record with an unknown group nested 99 deep is read, 100 deep is not
    for (depth, ok) in [(99usize, true), (100, false)] {
        let mut inner: Vec<u8> = vec![0x2b; depth];
        inner.extend(vec![0x2c; depth]);
        let mut payload: Vec<u8> = Vec::new();
        encode_key(2, WireType::LengthDelimited, &mut payload);
        encode_varint(inner.len() as u64, &mut payload);
        payload.extend(&inner);
        let decoded = IndexerFeesHourlyProtobuf::decode(&payload);
        if ok {
            assert_eq!(decoded.unwrap().aggregations.len(), 1);
        } else {
            assert_eq!(decoded, Err(DecodeError::RecursionLimit));
        }
    }
}
