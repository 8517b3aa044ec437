//! The ciphers and the text utilities they share.
pub mod scytale;
pub mod shift;
pub mod utils;
