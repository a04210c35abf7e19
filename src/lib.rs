//! Base58 text encoding of byte strings, with the alphabet
//! `123456789ABCDEFGHJKLMNPQRSTUVWXYZabcdefghijkmnopqrstuvwxyz`.
//!
//! `codec` holds the encoder and decoder, proved against their mathematical
//! definition together with the round-trip laws; `radix` the arithmetic on
//! digit sequences they rest on; `alphabet` the symbol table; `cli` the
//! commands of the `bs58` tool.

pub mod alphabet;
pub mod cli;
pub mod codec;
pub mod radix;

pub use cli::{decode, encode, Bs58Commands, CliError, Commands, DecodeArgs, EncodeArgs};
pub use codec::{decode_string, encode_bytes, DecodeError};
