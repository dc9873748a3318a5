//! A minimal append-only ledger: balance transfers grouped into blocks that are
//! sealed with a content digest and linked to their predecessor.

pub mod ledger;
pub mod codec;
pub mod block;
pub mod chain;
