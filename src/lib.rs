//! Classical toy ciphers (Caesar, ROT13, XOR, Vigenere), a textbook Base64
//! codec and a small engine that dispatches among the byte ciphers, each with
//! a machine-checked contract.

pub mod alpha;
pub mod text;
pub mod xor;
pub mod engine;
pub mod base64;
pub mod hexstr;
