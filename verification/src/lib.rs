//! Resolution of letter-scrambled words against a dictionary.

pub mod fingerprint;
pub mod text;
pub mod dictionary;
pub mod resolver;
pub mod token;
pub mod unscramble;
