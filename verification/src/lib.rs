//! A Vigenère-style polyalphabetic substitution cipher over a configurable
//! alphabet of Unicode characters.
//!
//! An engine is built from a key string and an alphabet. It keeps of the key
//! string the characters that the alphabet holds, and holds for each distinct
//! key symbol the alphabet rotated to that symbol. Encryption and decryption
//! leave out what the alphabet does not hold and substitute the rest symbol
//! by symbol under the repeating key.
//!
//! - `model` says what these operations mean on sequences of characters;
//! - `laws` proves what holds of the model, the round trip among it;
//! - `cipher` holds the engine, whose functions are proved against the model;
//! - `symbols` holds the helpers on characters that the engine is made of;
//! - `error` says why an engine can be refused.

pub mod cipher;
pub mod error;
pub mod laws;
pub mod model;
pub mod symbols;

pub use crate::cipher::Vigenere;
pub use crate::error::ConfigurationError;
