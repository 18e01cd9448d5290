//! Cryptanalysis of repeating-key (Vigenère-family) substitution ciphers over
//! the 26-letter alphabet: key-length estimation and key recovery.

pub mod error;
pub mod estimator;
pub mod frequency;
pub mod friedman;
pub mod histogram;
pub mod kasiski;
pub mod modular;
pub mod recover;
pub mod symbols;
