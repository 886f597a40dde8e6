//! Word segmentation of unbroken letter streams with a unigram word model, and the
//! in-memory side of the language configuration.
pub mod text;
pub mod tokenize;
pub mod model;
pub mod segment;
pub mod error;
pub mod config;
pub mod crypt;

pub use config::{CipherConfig, LangMeta};
pub use crypt::{decrypt, encrypt, CliCipher};
pub use error::CipherError;
pub use model::{by_frequency, frequencies, Words};
pub use segment::segment_str;
pub use tokenize::words;
