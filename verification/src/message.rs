//! Messages as the protocol knows them, and the events that are handed in
//! for storage.

use crate::primitives::H256;
use sha3::{Digest, Keccak256};
use vstd::prelude::*;

verus! {

/// The version that every message read back from storage carries.
pub const PROTOCOL_VERSION: u8 = 3;

/// Number of bytes that precede the body in an encoded message.
pub const MESSAGE_PREFIX_LEN: usize = 77;

/// A message sent from a mailbox on one chain to a recipient on another.
#[derive(Clone, Debug, PartialEq, Eq)]
pub struct HyperlaneMessage {
    /// Version of the message format.
    pub version: u8,
    /// Position of the message in the sequence of its origin mailbox.
    pub nonce: u32,
    /// Chain on which the message was dispatched.
    pub origin: u32,
    /// Address that dispatched the message.
    pub sender: H256,
    /// Chain to which the message is addressed.
    pub destination: u32,
    /// Address on the destination chain that receives the message.
    pub recipient: H256,
    /// Payload.
    pub body: Vec<u8>,
}

/// What a message holds, as plain values.
pub struct MessageView {
    pub version: u8,
    pub nonce: u32,
    pub origin: u32,
    pub sender: Seq<u8>,
    pub destination: u32,
    pub recipient: Seq<u8>,
    pub body: Seq<u8>,
}

/// The four bytes of `value`, most significant first.
pub open spec fn spec_be_bytes(value: u32) -> Seq<u8> {
    seq![
        (value / 0x100_0000) as u8,
        (value / 0x1_0000 % 0x100) as u8,
        (value / 0x100 % 0x100) as u8,
        (value % 0x100) as u8,
    ]
}

impl MessageView {
    /// The bytes of the message on the wire: version, nonce, origin, sender,
    /// destination, recipient, each at its fixed width, and then the body.
    pub open spec fn encoding(self) -> Seq<u8> {
        seq![self.version] + spec_be_bytes(self.nonce) + spec_be_bytes(self.origin) + self.sender
            + spec_be_bytes(self.destination) + self.recipient + self.body
    }
}

impl View for HyperlaneMessage {
    type V = MessageView;

    open spec fn view(&self) -> MessageView {
        MessageView {
            version: self.version,
            nonce: self.nonce,
            origin: self.origin,
            sender: self.sender@,
            destination: self.destination,
            recipient: self.recipient@,
            body: self.body@,
        }
    }
}

/// The Keccak-256 digest of `data`.
pub uninterp spec fn keccak256_of(data: Seq<u8>) -> Seq<u8>;

/// Hashes `data` with `sha3::Keccak256::digest`. Not proved: that the 32
/// bytes returned are the digest that the hash function assigns to `data`.
#[verifier::external_body]
fn keccak256(data: &[u8]) -> (digest: [u8; 32])
    ensures
        digest@ == keccak256_of(data@),
{
    let mut digest = [0u8; 32];
    digest.copy_from_slice(Keccak256::digest(data).as_slice());
    digest
}

/// Appends the four bytes of `value`, most significant first.
fn push_be_bytes(out: &mut Vec<u8>, value: u32)
    ensures
        final(out)@ == old(out)@ + spec_be_bytes(value),
{
    out.push((value / 0x100_0000) as u8);
    out.push((value / 0x1_0000 % 0x100) as u8);
    out.push((value / 0x100 % 0x100) as u8);
    out.push((value % 0x100) as u8);
    assert(out@ =~= old(out)@ + spec_be_bytes(value));
}

/// Appends the bytes of `bytes`.
fn push_all(out: &mut Vec<u8>, bytes: &[u8])
    ensures
        final(out)@ == old(out)@ + bytes@,
{
    let mut i: usize = 0;
    while i < bytes.len()
        invariant
            i <= bytes@.len(),
            out@ == old(out)@ + bytes@.take(i as int),
        decreases bytes@.len() - i,
    {
        out.push(bytes[i]);
        assert(bytes@.take(i as int).push(bytes@[i as int]) =~= bytes@.take(i + 1));
        assert(out@ =~= old(out)@ + bytes@.take(i + 1));
        i += 1;
    }
    assert(bytes@.take(bytes@.len() as int) =~= bytes@);
}

impl HyperlaneMessage {
    /// The bytes of the message on the wire.
    pub fn to_vec(&self) -> (bytes: Vec<u8>)
        ensures
            bytes@ == self@.encoding(),
            bytes@.len() == MESSAGE_PREFIX_LEN + self.body@.len(),
    {
        let mut bytes: Vec<u8> = Vec::new();
        bytes.push(self.version);
        assert(bytes@ =~= seq![self.version]);
        push_be_bytes(&mut bytes, self.nonce);
        push_be_bytes(&mut bytes, self.origin);
        push_all(&mut bytes, self.sender.as_fixed_bytes().as_slice());
        push_be_bytes(&mut bytes, self.destination);
        push_all(&mut bytes, self.recipient.as_fixed_bytes().as_slice());
        push_all(&mut bytes, self.body.as_slice());
        bytes
    }

    /// The identifier of the message: the Keccak-256 digest of its bytes on
    /// the wire.
    pub fn id(&self) -> (id: H256)
        ensures
            id@ == keccak256_of(self@.encoding()),
    {
        let bytes = self.to_vec();
        H256(keccak256(bytes.as_slice()))
    }
}

/// Where in its chain a log entry was found.
#[derive(Clone, Debug, PartialEq, Eq)]
pub struct LogMeta {
    /// Address of the contract that emitted the entry.
    pub address: H256,
    /// Number of the block that holds the entry.
    pub block_number: u64,
    /// Hash of that block.
    pub block_hash: H256,
    /// Identifier of the transaction that emitted the entry.
    pub transaction_id: [u8; 64],
    /// Position of that transaction in its block.
    pub transaction_index: u64,
    /// Position of the entry in its block, as four 64-bit limbs, least
    /// significant first.
    pub log_index: [u64; 4],
}

/// A delivery that was observed at a destination mailbox.
#[derive(Debug, Clone)]
pub struct StorableDelivery<'a> {
    /// Identifier of the message that was delivered.
    pub message_id: H256,
    /// Where the delivery was found.
    pub meta: &'a LogMeta,
    /// The store's identifier of the transaction in which the delivery occurred.
    pub txn_id: i64,
}

/// A dispatched message that was observed at an origin mailbox.
pub struct StorableMessage<'a> {
    /// The message.
    pub msg: HyperlaneMessage,
    /// Where the dispatch was found.
    pub meta: &'a LogMeta,
    /// The store's identifier of the transaction in which the message was sent.
    pub txn_id: i64,
}

/// The four bytes of `spec_be_bytes` spell `value` in base 256.
pub proof fn lemma_be_bytes_value(value: u32)
    ensures
        spec_be_bytes(value).len() == 4,
        spec_be_bytes(value)[0] * 0x100_0000 + spec_be_bytes(value)[1] * 0x1_0000 + spec_be_bytes(
            value,
        )[2] * 0x100 + spec_be_bytes(value)[3] == value,
{
}

} // verus!
