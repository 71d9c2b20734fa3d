//! Verified core of a command-line mail client: the account registry, folder
//! and message bookkeeping, and the text formats the client reads and writes.
pub mod text;
pub mod config;
pub mod accounts;
pub mod provider;
pub mod token;
pub mod mime;
pub mod selection;
pub mod messages;
pub mod folders;
pub mod args;
