//! An offline secret store: one encrypted file of named credential records,
//! unlocked by a single master passphrase.

pub mod cache;
pub mod crypto;
pub mod display;
pub mod engine;
pub mod json;
pub mod listing;
pub mod merge;
pub mod search;
pub mod text;
pub mod transfer;
pub mod utils;
pub mod vault;

pub use engine::Vault;
pub use vault::{Entry, Group, VaultData};
