use lend_protocol::account::{BaseAccount, EthAccount, ProtoAny};
use lend_protocol::wire::{UnknownValue, WireError};

fn sample_account() -> EthAccount {
    let mut base = BaseAccount::new();
    base.address = "inj1".to_string();
    base.account_number = 5;
    let mut a = EthAccount::new();
    a.set_base_account(base);
    a.set_code_hash(vec![0xAA, 0xBB]);
    a
}

const SAMPLE_BYTES: [u8; 14] = [
    0x0A, 0x08, 0x0A, 0x04, 0x69, 0x6E, 0x6A, 0x31, 0x18, 0x05, 0x12, 0x02, 0xAA, 0xBB,
];

fn encode(a: &EthAccount) -> Vec<u8> {
    let mut out = Vec::new();
    a.write_to_with_cached_sizes(&mut out);
    out
}

#[test]
fn account_encodes_as_protobuf() {
    let a = sample_account();
    assert_eq!(encode(&a), SAMPLE_BYTES.to_vec());
    assert_eq!(a.compute_size(), 14);
}

#[test]
fn empty_account_encodes_as_nothing() {
    let a = EthAccount::new();
    assert!(encode(&a).is_empty());
    assert_eq!(a.compute_size(), 0);
    assert!(a.is_initialized());
}

#[test]
fn account_reads_back() {
    let mut a = EthAccount::new();
    assert_eq!(a.merge_from(&SAMPLE_BYTES), Ok(()));
    let base = a.get_base_account();
    assert_eq!(base.address, "inj1");
    assert_eq!(base.account_number, 5);
    assert_eq!(base.sequence, 0);
    assert!(base.pub_key.is_none());
    assert_eq!(a.get_code_hash(), &[0xAA, 0xBB]);
}

#[test]
fn account_with_key_round_trips() {
    let mut base = BaseAccount::new();
    base.address = "inj1é".to_string();
    base.sequence = 300;
    let mut key = ProtoAny::new();
    key.type_url = "/injective.crypto.v1beta1.ethsecp256k1.PubKey".to_string();
    key.value = vec![1, 2, 3];
    base.pub_key = Some(key);
    let mut a = EthAccount::new();
    a.set_base_account(base);
    let bytes = encode(&a);
    assert_eq!(bytes.len() as u32, a.compute_size());
    let mut b = EthAccount::new();
    assert_eq!(b.merge_from(&bytes), Ok(()));
    let got = b.get_base_account();
    assert_eq!(got.address, "inj1é");
    assert_eq!(got.sequence, 300);
    let got_key = got.pub_key.unwrap();
    assert_eq!(got_key.type_url, "/injective.crypto.v1beta1.ethsecp256k1.PubKey");
    assert_eq!(got_key.value, vec![1, 2, 3]);
    assert_eq!(encode(&b), bytes);
}

#[test]
fn undeclared_fields_are_kept() {
    let mut bytes = SAMPLE_BYTES.to_vec();
    bytes.extend_from_slice(&[0x38, 0xAC, 0x02]);
    let mut a = EthAccount::new();
    assert_eq!(a.merge_from(&bytes), Ok(()));
    assert_eq!(a.unknown_fields.fields.len(), 1);
    assert_eq!(a.unknown_fields.fields[0].number, 7);
    assert_eq!(a.unknown_fields.fields[0].values.varint, vec![300]);
    assert_eq!(encode(&a), bytes);
    assert_eq!(a.compute_size(), 17);
    a.clear();
    assert!(encode(&a).is_empty());
}

#[test]
fn undeclared_values_group_by_field() {
    let mut a = EthAccount::new();
    a.unknown_fields.add_value(9, UnknownValue::Fixed32(1));
    a.unknown_fields.add_value(8, UnknownValue::LengthDelimited(vec![7]));
    a.unknown_fields.add_value(9, UnknownValue::Varint(2));
    assert_eq!(encode(&a), vec![0x4D, 1, 0, 0, 0, 0x48, 2, 0x42, 1, 7]);
}

#[test]
fn groups_are_skipped() {
    let mut a = EthAccount::new();
    assert_eq!(a.merge_from(&[0x4B, 0x08, 0x01, 0x4C, 0x12, 0x01, 0x09]), Ok(()));
    assert!(a.unknown_fields.fields.is_empty());
    assert_eq!(a.get_code_hash(), &[0x09]);
}

#[test]
fn merging_twice_merges_the_base_account() {
    let mut a = EthAccount::new();
    assert_eq!(a.merge_from(&[0x0A, 0x02, 0x18, 0x05]), Ok(()));
    assert_eq!(a.merge_from(&[0x0A, 0x02, 0x20, 0x07]), Ok(()));
    let base = a.get_base_account();
    assert_eq!(base.account_number, 5);
    assert_eq!(base.sequence, 7);
}

#[test]
fn nested_message_past_the_input_stops_at_its_end() {
    let mut a = EthAccount::new();
    assert_eq!(a.merge_from(&[0x0A, 0x05]), Ok(()));
    assert!(a.has_base_account());
}

#[test]
fn read_errors() {
    assert_eq!(EthAccount::new().merge_from(&[0x0A]), Err(WireError::UnexpectedEof));
    assert_eq!(EthAccount::new().merge_from(&[0x10, 0x01]), Err(WireError::UnexpectedWireType(0)));
    assert_eq!(EthAccount::new().merge_from(&[0x00]), Err(WireError::IncorrectTag(0)));
    assert_eq!(EthAccount::new().merge_from(&[0x0F]), Err(WireError::IncorrectTag(15)));
    assert_eq!(EthAccount::new().merge_from(&[0x0A, 0x02, 0x12, 0x05]), Err(WireError::Other));
    assert_eq!(EthAccount::new().merge_from(&[0x0A, 0x03, 0x0A, 0x01, 0xFF]), Err(WireError::Utf8Error));
    assert_eq!(EthAccount::new().merge_from(&[0x12, 0x05, 0x01]), Err(WireError::UnexpectedEof));
    assert_eq!(
        EthAccount::new().merge_from(&[0x0A, 0x02, 0x0A, 0x05, 0x61]),
        Err(WireError::TruncatedMessage)
    );
    let mut long = vec![0x38];
    long.extend_from_slice(&[0x80; 10]);
    assert_eq!(EthAccount::new().merge_from(&long), Err(WireError::IncorrectVarint));
    assert_eq!(EthAccount::new().merge_from(&[0x4B, 0x4B]), Err(WireError::UnexpectedWireType(3)));
    assert_eq!(EthAccount::new().merge_from(&[0x3C]), Err(WireError::UnexpectedWireType(4)));
}
