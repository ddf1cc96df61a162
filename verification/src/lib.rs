//! The Vigenère cipher over the 26 upper-case Latin letters, as a line-oriented
//! transform on bytes.
//!
//! Letters are shifted by the letters of a keyword that is cycled in step with
//! the letters of the text; every other byte is copied. Lower-case letters are
//! read as upper-case ones, in the text and in the keyword alike.

pub mod alphabet;
pub mod cipher;
pub mod engine;
pub mod failure;
pub mod laws;
pub mod lines;
pub mod stream;

pub use alphabet::{
    in_alphabet, key_shift, shift_letter, to_upper, CAP_A, CAP_Z, LF, NUM_LETTERS,
};
pub use engine::Engine;
pub use failure::RunError;
pub use cipher::{run, Config};
