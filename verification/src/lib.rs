//! Conversion between the two textual forms of a 20-byte account identifier:
//! the hexadecimal form, prefixed `0x`, and the checksummed Base58 form,
//! prefixed `V`.
//!
//! `eth_to_vlx` converts `0x32Be343B94f860124dC4fEe278FDCBD38C102D88` to
//! `V5dJeCa7bmkqmZF53TqjRbnB4fG6hxuu4f`, and `vlx_to_eth` converts that back
//! to `0x32be343b94f860124dc4fee278fdcbd38c102d88`.

pub mod address;
pub mod base58;
pub mod checksum;
pub mod hex_text;
pub mod laws;

pub use address::{eth_to_vlx, vlx_to_eth, AddressError};
