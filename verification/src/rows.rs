//! The rows of the two tables, and the mapping between them and what the
//! protocol hands in or asks back.

use crate::error::StoreError;
use crate::message::{
    keccak256_of, HyperlaneMessage, MessageView, StorableDelivery, StorableMessage,
    PROTOCOL_VERSION,
};
use crate::primitives::{
    address_to_bytes, bytes_to_address, copy_bytes, h256_to_bytes, lemma_address_round_trip,
    same_bytes, spec_address_to_bytes, spec_bytes_to_address, H256,
};
use crate::stored::{Record, StoredRow};
use crate::table::Entry;
use vstd::prelude::*;

verus! {

/// What is written for one dispatched message.
#[derive(Clone, Debug, PartialEq, Eq)]
pub struct MessageFields {
    /// When the write was made, in seconds since the Unix epoch.
    pub time_created: u64,
    /// Identifier of the message.
    pub msg_id: Vec<u8>,
    /// Chain on which the message was dispatched.
    pub origin: u32,
    /// Chain to which the message is addressed.
    pub destination: u32,
    /// Position of the message in the sequence of its origin mailbox.
    pub nonce: u32,
    /// Address that dispatched the message.
    pub sender: Vec<u8>,
    /// Address that receives the message.
    pub recipient: Vec<u8>,
    /// Payload; absent where the message has none.
    pub msg_body: Option<Vec<u8>>,
    /// Address of the mailbox that emitted the dispatch.
    pub origin_mailbox: Vec<u8>,
    /// The store's identifier of the transaction in which the message was sent.
    pub origin_tx_id: i64,
}

/// A stored row of the message table.
pub type MessageRow = StoredRow<MessageFields>;

/// What is written for one delivery.
#[derive(Clone, Debug, PartialEq, Eq)]
pub struct DeliveryFields {
    /// When the write was made, in seconds since the Unix epoch.
    pub time_created: u64,
    /// Identifier of the message that was delivered.
    pub msg_id: Vec<u8>,
    /// Chain on which the delivery occurred.
    pub domain: u32,
    /// Address of the mailbox that emitted the delivery.
    pub destination_mailbox: Vec<u8>,
    /// The store's identifier of the transaction in which the delivery occurred.
    pub destination_tx_id: i64,
}

/// A stored row of the delivery table.
pub type DeliveryRow = StoredRow<DeliveryFields>;

/// The columns of a message row, apart from its identifier, as plain values.
pub struct MessageEntry {
    pub time_created: u64,
    pub msg_id: Seq<u8>,
    pub origin: u32,
    pub destination: u32,
    pub nonce: u32,
    pub sender: Seq<u8>,
    pub recipient: Seq<u8>,
    pub msg_body: Option<Seq<u8>>,
    pub origin_mailbox: Seq<u8>,
    pub origin_tx_id: i64,
}

/// The columns of a delivery row, apart from its identifier, as plain values.
pub struct DeliveryEntry {
    pub time_created: u64,
    pub msg_id: Seq<u8>,
    pub domain: u32,
    pub destination_mailbox: Seq<u8>,
    pub destination_tx_id: i64,
}

impl Entry for MessageEntry {
    /// Origin mailbox, origin chain and nonce.
    type Key = (Seq<u8>, u32, u32);

    open spec fn key(self) -> (Seq<u8>, u32, u32) {
        (self.origin_mailbox, self.origin, self.nonce)
    }

    open spec fn in_mailbox(self, domain: u32, mailbox: Seq<u8>) -> bool {
        self.origin == domain && self.origin_mailbox == mailbox
    }

    open spec fn refreshed(self, write: MessageEntry) -> MessageEntry {
        MessageEntry {
            time_created: write.time_created,
            destination: write.destination,
            sender: write.sender,
            recipient: write.recipient,
            msg_body: write.msg_body,
            origin_tx_id: write.origin_tx_id,
            ..self
        }
    }

    open spec fn reflects(self, write: MessageEntry) -> bool {
        &&& self.time_created == write.time_created
        &&& self.destination == write.destination
        &&& self.sender == write.sender
        &&& self.recipient == write.recipient
        &&& self.msg_body == write.msg_body
        &&& self.origin_tx_id == write.origin_tx_id
    }

    proof fn lemma_refreshed(self, write: MessageEntry) {
    }
}

impl Entry for DeliveryEntry {
    /// The identifier of the delivered message.
    type Key = Seq<u8>;

    open spec fn key(self) -> Seq<u8> {
        self.msg_id
    }

    open spec fn in_mailbox(self, domain: u32, mailbox: Seq<u8>) -> bool {
        self.domain == domain && self.destination_mailbox == mailbox
    }

    open spec fn refreshed(self, write: DeliveryEntry) -> DeliveryEntry {
        DeliveryEntry {
            time_created: write.time_created,
            destination_tx_id: write.destination_tx_id,
            ..self
        }
    }

    open spec fn reflects(self, write: DeliveryEntry) -> bool {
        &&& self.time_created == write.time_created
        &&& self.destination_tx_id == write.destination_tx_id
    }

    proof fn lemma_refreshed(self, write: DeliveryEntry) {
    }
}

impl View for MessageFields {
    type V = MessageEntry;

    open spec fn view(&self) -> MessageEntry {
        MessageEntry {
            time_created: self.time_created,
            msg_id: self.msg_id@,
            origin: self.origin,
            destination: self.destination,
            nonce: self.nonce,
            sender: self.sender@,
            recipient: self.recipient@,
            msg_body: match self.msg_body {
                Some(body) => Some(body@),
                None => None,
            },
            origin_mailbox: self.origin_mailbox@,
            origin_tx_id: self.origin_tx_id,
        }
    }
}

impl View for DeliveryFields {
    type V = DeliveryEntry;

    open spec fn view(&self) -> DeliveryEntry {
        DeliveryEntry {
            time_created: self.time_created,
            msg_id: self.msg_id@,
            domain: self.domain,
            destination_mailbox: self.destination_mailbox@,
            destination_tx_id: self.destination_tx_id,
        }
    }
}

impl Record for MessageFields {
    fn same_key(&self, other: &MessageFields) -> (same: bool) {
        self.origin == other.origin && self.nonce == other.nonce && same_bytes(
            &self.origin_mailbox,
            &other.origin_mailbox,
        )
    }

    fn observed_at(&self, domain: u32, mailbox: &Vec<u8>) -> (observed: bool) {
        self.origin == domain && same_bytes(&self.origin_mailbox, mailbox)
    }

    fn refresh(&mut self, write: MessageFields) {
        self.time_created = write.time_created;
        self.destination = write.destination;
        self.sender = write.sender;
        self.recipient = write.recipient;
        self.msg_body = write.msg_body;
        self.origin_tx_id = write.origin_tx_id;
    }
}

impl Record for DeliveryFields {
    fn same_key(&self, other: &DeliveryFields) -> (same: bool) {
        same_bytes(&self.msg_id, &other.msg_id)
    }

    fn observed_at(&self, domain: u32, mailbox: &Vec<u8>) -> (observed: bool) {
        self.domain == domain && same_bytes(&self.destination_mailbox, mailbox)
    }

    fn refresh(&mut self, write: DeliveryFields) {
        self.time_created = write.time_created;
        self.destination_tx_id = write.destination_tx_id;
    }
}

/// The row written for a dispatched message: the mailbox, the origin chain
/// and the nonce make its key; an empty body is stored as absent.
pub open spec fn spec_message_entry(
    origin_mailbox: Seq<u8>,
    message: MessageView,
    message_id: Seq<u8>,
    txn_id: i64,
    time_created: u64,
) -> MessageEntry {
    MessageEntry {
        time_created,
        msg_id: message_id,
        origin: message.origin,
        destination: message.destination,
        nonce: message.nonce,
        sender: spec_address_to_bytes(message.sender),
        recipient: spec_address_to_bytes(message.recipient),
        msg_body: if message.body.len() == 0 {
            None
        } else {
            Some(message.body)
        },
        origin_mailbox,
        origin_tx_id: txn_id,
    }
}

/// The row written for a delivery.
pub open spec fn spec_delivery_entry(
    domain: u32,
    destination_mailbox: Seq<u8>,
    message_id: Seq<u8>,
    txn_id: i64,
    time_created: u64,
) -> DeliveryEntry {
    DeliveryEntry {
        time_created,
        msg_id: message_id,
        domain,
        destination_mailbox,
        destination_tx_id: txn_id,
    }
}

impl MessageEntry {
    /// The message that the row stands for, where its sender and recipient
    /// have an accepted width: the version is the current one, and an absent
    /// body is the empty one.
    pub open spec fn message(self) -> Option<MessageView> {
        match (spec_bytes_to_address(self.sender), spec_bytes_to_address(self.recipient)) {
            (Some(sender), Some(recipient)) => Some(
                MessageView {
                    version: PROTOCOL_VERSION,
                    nonce: self.nonce,
                    origin: self.origin,
                    sender,
                    destination: self.destination,
                    recipient,
                    body: match self.msg_body {
                        Some(body) => body,
                        None => Seq::empty(),
                    },
                },
            ),
            _ => None,
        }
    }
}

/// Builds the row for a dispatched message whose identifier is `message_id`.
pub fn message_fields(
    origin_mailbox: &Vec<u8>,
    msg: HyperlaneMessage,
    message_id: &H256,
    txn_id: i64,
    time_created: u64,
) -> (fields: MessageFields)
    ensures
        fields@ == spec_message_entry(origin_mailbox@, msg@, message_id@, txn_id, time_created),
{
    let sender = address_to_bytes(&msg.sender);
    let recipient = address_to_bytes(&msg.recipient);
    MessageFields {
        time_created,
        msg_id: h256_to_bytes(message_id),
        origin: msg.origin,
        destination: msg.destination,
        nonce: msg.nonce,
        sender,
        recipient,
        msg_body: if msg.body.len() == 0 {
            None
        } else {
            Some(msg.body)
        },
        origin_mailbox: copy_bytes(origin_mailbox),
        origin_tx_id: txn_id,
    }
}

/// Builds the row for a delivery observed at `destination_mailbox` on `domain`.
pub fn delivery_fields(
    domain: u32,
    destination_mailbox: &Vec<u8>,
    delivery: &StorableDelivery<'_>,
    time_created: u64,
) -> (fields: DeliveryFields)
    ensures
        fields@ == spec_delivery_entry(
            domain,
            destination_mailbox@,
            delivery.message_id@,
            delivery.txn_id,
            time_created,
        ),
{
    DeliveryFields {
        time_created,
        msg_id: h256_to_bytes(&delivery.message_id),
        domain,
        destination_mailbox: copy_bytes(destination_mailbox),
        destination_tx_id: delivery.txn_id,
    }
}

impl<'a> StorableMessage<'a> {
    /// The row that is written for the message when it was observed at
    /// `origin_mailbox`. The identifier in it is that of the message.
    pub fn into_fields(self, origin_mailbox: &Vec<u8>, time_created: u64) -> (fields:
        MessageFields)
        ensures
            fields@ == spec_message_entry(
                origin_mailbox@,
                self.msg@,
                keccak256_of(self.msg@.encoding()),
                self.txn_id,
                time_created,
            ),
    {
        let message_id = self.msg.id();
        message_fields(origin_mailbox, self.msg, &message_id, self.txn_id, time_created)
    }
}

impl MessageFields {
    /// Rebuilds the message from a stored row. The version is not stored and
    /// is the current one; an absent body comes back empty. Fails where the
    /// sender or the recipient has a width that no address has.
    pub fn to_message(&self) -> (message: Result<HyperlaneMessage, StoreError>)
        ensures
            match message {
                Ok(m) => self@.message() == Some(m@),
                Err(e) => self@.message() is None && e == StoreError::Decode,
            },
    {
        let sender = match bytes_to_address(copy_bytes(&self.sender)) {
            Ok(address) => address,
            Err(e) => {
                return Err(e);
            },
        };
        let recipient = match bytes_to_address(copy_bytes(&self.recipient)) {
            Ok(address) => address,
            Err(e) => {
                return Err(e);
            },
        };
        let body = match &self.msg_body {
            Some(bytes) => copy_bytes(bytes),
            None => Vec::new(),
        };
        Ok(
            HyperlaneMessage {
                version: PROTOCOL_VERSION,
                origin: self.origin,
                destination: self.destination,
                nonce: self.nonce,
                sender,
                recipient,
                body,
            },
        )
    }
}

/// A message that is written as a row and rebuilt from it comes back with
/// every field but the version, which is the current one.
pub proof fn lemma_message_round_trip(
    origin_mailbox: Seq<u8>,
    message: MessageView,
    message_id: Seq<u8>,
    txn_id: i64,
    time_created: u64,
)
    requires
        message.sender.len() == 32,
        message.recipient.len() == 32,
    ensures
        spec_message_entry(origin_mailbox, message, message_id, txn_id, time_created).message()
            == Some(MessageView { version: PROTOCOL_VERSION, ..message }),
{
    lemma_address_round_trip(message.sender);
    lemma_address_round_trip(message.recipient);
    let rebuilt = spec_message_entry(
        origin_mailbox,
        message,
        message_id,
        txn_id,
        time_created,
    ).message().unwrap();
    assert(rebuilt.body =~= message.body);
}

} // verus!
