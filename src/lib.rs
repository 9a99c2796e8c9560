//! An encrypted key-value vault: a password-derived key, an authenticated
//! encrypted blob, a plain-text record format, and a line protocol.

pub mod crypt;
pub mod vault;
pub mod session;
pub mod daemon;
