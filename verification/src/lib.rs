//! Storage of the cross-chain messages that a scraper observes: dispatches
//! at their origin mailbox and deliveries at their destination mailbox.
//!
//! Events are observed more than once, so every write is an insert or a
//! refresh by key, and a batch reports how many rows it added by counting
//! the identifiers beyond a baseline taken before the write.
//!
//! - [`primitives`] and [`message`] hold addresses, hashes and messages;
//! - [`rows`] maps between messages and the rows that stand for them;
//! - [`table`] is the model of a table, and [`watermark`] the count over it;
//! - [`stored`] and [`db`] keep the tables in memory;
//! - [`ingest`] gives the same steps to a store that is reached by queries;
//! - [`replay`] states what holds when events are stored again.

pub mod db;
pub mod error;
pub mod ingest;
pub mod message;
pub mod primitives;
pub mod replay;
pub mod rows;
pub mod stored;
pub mod table;
pub mod watermark;

pub use db::ScraperDb;
pub use error::StoreError;
pub use message::{HyperlaneMessage, LogMeta, StorableDelivery, StorableMessage};
pub use primitives::H256;
