use message_store::error::StoreError;
use message_store::message::{HyperlaneMessage, LogMeta, StorableDelivery, StorableMessage};
use message_store::primitives::{
    address_to_bytes, bytes_to_address, copy_bytes, h256_to_bytes, is_h160, same_bytes, H256,
};
use message_store::rows::{delivery_fields, message_fields, MessageFields};

fn short_address() -> H256 {
    let mut bytes = [0u8; 32];
    for i in 12..32 {
        bytes[i] = (i as u8) + 1;
    }
    H256(bytes)
}

fn sample() -> HyperlaneMessage {
    HyperlaneMessage {
        version: 3,
        nonce: 5,
        origin: 11,
        sender: H256([1u8; 32]),
        destination: 2,
        recipient: H256([2u8; 32]),
        body: vec![1, 2, 3],
    }
}

fn meta() -> LogMeta {
    LogMeta {
        address: H256([0u8; 32]),
        block_number: 1,
        block_hash: H256([0u8; 32]),
        transaction_id: [0u8; 64],
        transaction_index: 0,
        log_index: [0u64; 4],
    }
}

fn stored_fields(sender: Vec<u8>, recipient: Vec<u8>, body: Option<Vec<u8>>) -> MessageFields {
    MessageFields {
        time_created: 1,
        msg_id: vec![0u8; 32],
        origin: 11,
        destination: 2,
        nonce: 5,
        sender,
        recipient,
        msg_body: body,
        origin_mailbox: vec![7u8; 32],
        origin_tx_id: 9,
    }
}

#[test]
fn short_address_is_stored_in_twenty_bytes() {
    let address = short_address();
    assert!(is_h160(&address));
    let bytes = address_to_bytes(&address);
    assert_eq!(bytes, (13u8..=32).collect::<Vec<u8>>());
}

#[test]
fn full_address_is_stored_in_thirty_two_bytes() {
    let mut raw = [0u8; 32];
    raw[11] = 1;
    raw[31] = 5;
    let address = H256(raw);
    assert!(!is_h160(&address));
    assert_eq!(address_to_bytes(&address), raw.to_vec());
    assert_eq!(h256_to_bytes(&address), raw.to_vec());
}

#[test]
fn hash_keeps_all_bytes_even_with_leading_zeros() {
    assert_eq!(h256_to_bytes(&short_address()).len(), 32);
    assert_eq!(h256_to_bytes(&H256([0u8; 32])), vec![0u8; 32]);
}

#[test]
fn twenty_bytes_are_read_as_a_padded_address() {
    let bytes: Vec<u8> = (13u8..=32).collect();
    assert_eq!(bytes_to_address(bytes), Ok(short_address()));
}

#[test]
fn thirty_two_bytes_are_read_as_they_are() {
    assert_eq!(bytes_to_address(vec![4u8; 32]), Ok(H256([4u8; 32])));
}

#[test]
fn other_widths_are_not_addresses() {
    assert_eq!(bytes_to_address(Vec::new()), Err(StoreError::Decode));
    assert_eq!(bytes_to_address(vec![1u8; 19]), Err(StoreError::Decode));
    assert_eq!(bytes_to_address(vec![1u8; 21]), Err(StoreError::Decode));
    assert_eq!(bytes_to_address(vec![1u8; 31]), Err(StoreError::Decode));
    assert_eq!(bytes_to_address(vec![1u8; 33]), Err(StoreError::Decode));
}

#[test]
fn address_comes_back_from_its_bytes() {
    for address in [short_address(), H256([0u8; 32]), H256([0xFFu8; 32])] {
        assert_eq!(bytes_to_address(address_to_bytes(&address)), Ok(address));
    }
}

#[test]
fn from_slice_and_fixed_bytes_agree() {
    let raw: Vec<u8> = (0u8..32).collect();
    let value = H256::from_slice(&raw);
    assert_eq!(value.as_fixed_bytes().to_vec(), raw);
    assert_eq!(value, H256::from_slice(&raw));
    assert_ne!(value, H256([0u8; 32]));
}

#[test]
fn byte_strings_are_compared_and_copied() {
    assert!(same_bytes(&vec![1, 2, 3], &vec![1, 2, 3]));
    assert!(!same_bytes(&vec![1, 2, 3], &vec![1, 2]));
    assert!(!same_bytes(&vec![1, 2, 3], &vec![1, 2, 4]));
    assert_eq!(copy_bytes(&vec![5, 6]), vec![5, 6]);
}

#[test]
fn message_is_encoded_field_by_field() {
    let bytes = sample().to_vec();
    let mut expected = vec![3u8, 0, 0, 0, 5, 0, 0, 0, 11];
    expected.extend([1u8; 32]);
    expected.extend([0u8, 0, 0, 2]);
    expected.extend([2u8; 32]);
    expected.extend([1u8, 2, 3]);
    assert_eq!(bytes, expected);
    assert_eq!(bytes.len(), 80);
}

#[test]
fn integers_are_encoded_most_significant_byte_first() {
    let message = HyperlaneMessage {
        version: 3,
        nonce: 0x0102_0304,
        origin: 0xA0B0_C0D0,
        sender: H256::from_slice(&(0u8..32).collect::<Vec<u8>>()),
        destination: 0xFFFF_FFFF,
        recipient: H256([
            0, 0, 0, 0, 0, 0, 0, 0, 0, 0, 0, 0, 9, 9, 9, 9, 9, 9, 9, 9, 9, 9, 9, 9, 9, 9, 9, 9, 9,
            9, 9, 9,
        ]),
        body: Vec::new(),
    };
    let bytes = message.to_vec();
    assert_eq!(bytes.len(), 77);
    assert_eq!(&bytes[0..9], &[3, 1, 2, 3, 4, 160, 176, 192, 208]);
    assert_eq!(&bytes[41..45], &[255, 255, 255, 255]);
    assert_eq!(
        message.id(),
        H256([
            158, 128, 248, 66, 110, 105, 188, 101, 165, 139, 236, 229, 105, 74, 4, 133, 4, 2, 1,
            170, 176, 127, 253, 145, 81, 189, 168, 92, 18, 61, 165, 157
        ])
    );
}

#[test]
fn message_id_is_the_keccak_digest_of_the_encoding() {
    assert_eq!(
        sample().id(),
        H256([
            62, 8, 201, 157, 135, 147, 123, 0, 232, 166, 235, 125, 179, 15, 90, 242, 194, 140, 250,
            206, 58, 35, 111, 181, 224, 232, 113, 80, 184, 227, 32, 60
        ])
    );
}

#[test]
fn message_id_follows_the_content() {
    let mut other = sample();
    other.body = vec![1, 2, 4];
    assert_ne!(sample().id(), other.id());
    assert_eq!(sample().id(), sample().id());
}

#[test]
fn row_of_a_message() {
    let message_id = H256([0xCDu8; 32]);
    let mut message = sample();
    message.sender = short_address();
    let fields = message_fields(&vec![7u8; 20], message, &message_id, 100, 1_700_000_000);
    assert_eq!(
        fields,
        MessageFields {
            time_created: 1_700_000_000,
            msg_id: vec![0xCDu8; 32],
            origin: 11,
            destination: 2,
            nonce: 5,
            sender: (13u8..=32).collect(),
            recipient: vec![2u8; 32],
            msg_body: Some(vec![1, 2, 3]),
            origin_mailbox: vec![7u8; 20],
            origin_tx_id: 100,
        }
    );
}

#[test]
fn row_of_a_message_without_body() {
    let mut message = sample();
    message.body = Vec::new();
    let fields = message_fields(&vec![7u8; 32], message, &H256([1u8; 32]), 100, 5);
    assert_eq!(fields.msg_body, None);
}

#[test]
fn row_built_from_an_event_carries_the_message_id() {
    let meta = meta();
    let storable = StorableMessage { msg: sample(), meta: &meta, txn_id: 42 };
    let fields = storable.into_fields(&vec![7u8; 32], 9);
    assert_eq!(fields.msg_id, h256_to_bytes(&sample().id()));
    assert_eq!(fields.origin_tx_id, 42);
    assert_eq!(fields.time_created, 9);
}

#[test]
fn row_of_a_delivery() {
    let meta = meta();
    let delivery = StorableDelivery { message_id: H256([3u8; 32]), meta: &meta, txn_id: 200 };
    let fields = delivery_fields(11, &vec![7u8; 32], &delivery, 1_700_000_000);
    assert_eq!(fields.time_created, 1_700_000_000);
    assert_eq!(fields.msg_id, vec![3u8; 32]);
    assert_eq!(fields.domain, 11);
    assert_eq!(fields.destination_mailbox, vec![7u8; 32]);
    assert_eq!(fields.destination_tx_id, 200);
}

#[test]
fn message_is_rebuilt_from_a_row() {
    let fields = stored_fields((13u8..=32).collect(), vec![2u8; 32], Some(vec![1, 2, 3]));
    let mut expected = sample();
    expected.sender = short_address();
    assert_eq!(fields.to_message(), Ok(expected));
}

#[test]
fn absent_body_is_rebuilt_empty() {
    let fields = stored_fields(vec![1u8; 32], vec![2u8; 32], None);
    assert_eq!(fields.to_message().unwrap().body, Vec::<u8>::new());
}

#[test]
fn row_with_a_malformed_address_is_not_a_message() {
    let bad_sender = stored_fields(vec![1u8; 5], vec![2u8; 32], None);
    assert_eq!(bad_sender.to_message(), Err(StoreError::Decode));
    let bad_recipient = stored_fields(vec![1u8; 32], vec![2u8; 21], None);
    assert_eq!(bad_recipient.to_message(), Err(StoreError::Decode));
}

#[test]
fn errors_describe_themselves() {
    assert_eq!(StoreError::Query.message(), "store query failed");
    assert_eq!(StoreError::Decode.message(), "invalid address length");
    assert_eq!(StoreError::InvariantViolation.message(), "empty batch");
}
