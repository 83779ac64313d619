//! A verified binary codec for legacy (pre-segwit) cryptocurrency
//! transactions.
//!
//! The core converts a raw byte buffer into a structured transaction record
//! and converts such a record back into the exact byte sequence the wire
//! format prescribes. Around it stand a fluent transaction builder, a small
//! `(x,y)` coordinate parser and a two-command CLI argument parser, all of
//! which share the codec's error type.

pub mod cli;
pub mod errors;
pub mod point;
pub mod primitives;
pub mod text;
pub mod tx;
pub mod varint;
pub mod wire;

pub use cli::parse_cli_args;
pub use cli::CliCommand;
pub use errors::BitcoinError;
pub use point::Point;
pub use tx::BitcoinSerialize;
pub use tx::LegacyTransaction;
pub use tx::LegacyTransactionBuilder;
pub use tx::OutPoint;
pub use tx::TxInput;
pub use tx::TxOutput;
