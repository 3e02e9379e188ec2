//! Key handling for an end-to-end encrypted chat. A user publishes keys as
//! brute-forcible puzzles and keeps them in a key base; a sender recovers
//! the key that a message chooses from its puzzle and encrypts the message
//! with AES-128-GCM; the recipient decrypts with the key base.

pub mod primitives;

pub mod ids;
pub mod key;
pub mod message;
pub mod puzzle;
