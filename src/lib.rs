//! A driver for motor controllers that speak a line-oriented ASCII protocol.

pub mod commands;
pub mod decimal;
pub mod decoder;
pub mod encoder;
pub mod enumerations;
pub mod errors;
pub mod stream;
pub mod text;
