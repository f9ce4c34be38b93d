use merkle_partial::node::Error;
use merkle_partial::ser::{deserialize, serialize, Record};

fn record(index: u64, fill: u8) -> Record {
    Record {
        index,
        chunk: vec![fill; 32],
    }
}

#[test]
fn record_layout_is_little_endian_index_then_chunk() {
    let bytes = serialize(&vec![record(0x0102_0304_0506_0708, 9)]);
    let mut expected = vec![8, 7, 6, 5, 4, 3, 2, 1];
    expected.extend(vec![9u8; 32]);
    assert_eq!(bytes, expected);
}

#[test]
fn serialize_then_deserialize_round_trips() {
    let records = vec![record(15, 1), record(16, 2), record(3, 0xff), record(u64::MAX - 1, 7)];
    let bytes = serialize(&records);
    assert_eq!(bytes.len(), 160);
    assert_eq!(deserialize(&bytes), Ok(records));
}

#[test]
fn empty_proof_round_trips() {
    assert_eq!(serialize(&vec![]), Vec::<u8>::new());
    assert_eq!(deserialize(&vec![]), Ok(vec![]));
}

#[test]
fn truncated_record_is_malformed() {
    let mut bytes = serialize(&vec![record(1, 1), record(2, 2)]);
    bytes.pop();
    assert_eq!(deserialize(&bytes), Err(Error::MalformedProof));
}

#[test]
fn duplicate_index_is_malformed() {
    let bytes = serialize(&vec![record(5, 1), record(6, 2), record(5, 3)]);
    assert_eq!(deserialize(&bytes), Err(Error::MalformedProof));
}
