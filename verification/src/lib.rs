//! Whisperer: encrypted messages between computers on a local network.
//!
//! The verified library holds the cipher, the wire framing of the key
//! exchange and messages, the recipient list and the on-disk format of
//! recipients and chat histories.
pub mod kem;
pub mod tcp;
pub mod msg;
pub mod save;
pub mod comms;
