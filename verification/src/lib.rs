//! A single-node ledger that routes structured transactions to domain
//! modules (fungible tokens, an NFT registry, shared utilities), mutates
//! persisted balance and ownership state through a byte-oriented key-value
//! storage abstraction, and batches pending transactions into
//! height-ordered blocks.

pub mod codec;
pub mod common;
pub mod error;
pub mod meme;
pub mod nft;
pub mod node;
pub mod config;
pub mod storage;
pub mod types;

pub use error::MemeChainError;
