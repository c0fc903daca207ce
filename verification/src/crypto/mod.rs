//! Key agreement's wire forms and the key-schedule search space.
//!
//! The surface where a mistake becomes a vulnerability: key material never prints
//! itself, and encodings are matched as constants rather than parsed.
pub mod agreement;
pub mod probe;
pub mod cipher;
pub mod jwt;
pub mod messages;
